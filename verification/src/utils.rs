use vstd::prelude::*;
use vstd::string::StrSliceExecFns;
use vstd::utf8::encode_utf8;

verus! {

/// A 2D board position.
#[derive(Clone, Copy, Debug)]
pub struct Grid {
    pub x: u16,
    pub y: u16,
}

/// One placed mechanism. Only `index` (the board position) is read by the
/// encoders; the remaining fields are identity and status data carried along
/// from the loader.
#[derive(Clone, Debug)]
pub struct MechState {
    pub id: String,
    pub typ: String,
    pub status: String,
    pub index: Grid,
    pub pc_next: u16,
}

/// The type tag of an operator, as a one-character symbol.
#[derive(Clone, Debug)]
pub struct OperatorType {
    pub symbol: String,
}

/// One wiring operator: the cells it reads, the cells it writes, and its type.
#[derive(Clone, Debug)]
pub struct Operator {
    pub input: Vec<Grid>,
    pub output: Vec<Grid>,
    pub typ: OperatorType,
}

/// A parsed solution: mechanisms, one program string per mechanism, and
/// operators. Produced by an external loader; the encoders only read it.
#[derive(Clone, Debug)]
pub struct Input {
    pub mechs: Vec<MechState>,
    pub programs: Vec<String>,
    pub operators: Vec<Operator>,
}

/// Returned when an operator carries a symbol outside the closed alphabet
/// `{&, %, ^, #}`; the whole encoding run is aborted, no partial result.
#[derive(Clone, Copy, Debug, PartialEq, Eq, Structural)]
pub struct InvalidSymbol;

/// The instruction alphabet, one code per byte: `W A S D Z X G H` get codes
/// 1 through 8, the separator `_` gets 9, every other byte gets 10.
pub open spec fn instruction_code(b: u8) -> u16 {
    if b == 87 {
        1
    } else if b == 65 {
        2
    } else if b == 83 {
        3
    } else if b == 68 {
        4
    } else if b == 90 {
        5
    } else if b == 88 {
        6
    } else if b == 71 {
        7
    } else if b == 72 {
        8
    } else if b == 95 {
        9
    } else {
        10
    }
}

pub fn mapping_program(x: &[u8; 1]) -> (r: u16)
    ensures
        r == instruction_code(x@[0]),
{
    let b = x[0];
    if b == 87 {
        1
    } else if b == 65 {
        2
    } else if b == 83 {
        3
    } else if b == 68 {
        4
    } else if b == 90 {
        5
    } else if b == 88 {
        6
    } else if b == 71 {
        7
    } else if b == 72 {
        8
    } else if b == 95 {
        9
    } else {
        10
    }
}

/// The codes of one byte stream that survive the filter: codes 9 (separator)
/// and 10 (anything unrecognized) are dropped, codes 1 through 8 are kept in
/// order.
pub open spec fn retained_codes(bytes: Seq<u8>) -> Seq<u16>
    decreases bytes.len(),
{
    if bytes.len() == 0 {
        Seq::empty()
    } else {
        let rest = retained_codes(bytes.drop_last());
        let c = instruction_code(bytes.last());
        if c < 9 {
            rest.push(c)
        } else {
            rest
        }
    }
}

/// The retained codes of a list of programs, in program order. Joining the
/// programs with a separator before scanning adds only separator codes, which
/// the filter drops, so the result is the concatenation of the per-program
/// retained codes.
pub open spec fn retained_of_programs(ps: Seq<Seq<char>>) -> Seq<u16>
    decreases ps.len(),
{
    if ps.len() == 0 {
        Seq::empty()
    } else {
        retained_of_programs(ps.drop_last()) + retained_codes(encode_utf8(ps.last()))
    }
}

/// Every retained code lies in the closed range 1 through 8.
pub proof fn lemma_retained_codes_in_range(bytes: Seq<u8>)
    ensures
        forall|i: int|
            0 <= i < retained_codes(bytes).len() ==> 1 <= #[trigger] retained_codes(bytes)[i]
                <= 8,
    decreases bytes.len(),
{
    if bytes.len() > 0 {
        lemma_retained_codes_in_range(bytes.drop_last());
        let rest = retained_codes(bytes.drop_last());
        let c = instruction_code(bytes.last());
        if c < 9 {
            assert(retained_codes(bytes) == rest.push(c));
            assert(forall|i: int|
                0 <= i < rest.len() ==> rest.push(c)[i] == #[trigger] rest[i]);
        }
    }
}

pub fn get_instructions(program: &[String]) -> (r: Vec<u16>)
    ensures
        r@ == retained_of_programs(program.deep_view()),
{
    let ghost ps = program.deep_view();
    let mut out: Vec<u16> = Vec::new();
    let mut i: usize = 0;
    while i < program.len()
        invariant
            0 <= i <= program.len(),
            ps == program.deep_view(),
            ps.len() == program@.len(),
            out@ == retained_of_programs(ps.take(i as int)),
        decreases program.len() - i,
    {
        let bytes = program[i].as_str().as_bytes();
        assert(bytes@ == encode_utf8(ps[i as int]));
        let mut j: usize = 0;
        while j < bytes.len()
            invariant
                0 <= j <= bytes@.len(),
                out@ == retained_of_programs(ps.take(i as int)) + retained_codes(
                    bytes@.take(j as int),
                ),
            decreases bytes@.len() - j,
        {
            let c = mapping_program(&[bytes[j]]);
            assert(bytes@.take(j + 1).drop_last() == bytes@.take(j as int));
            if c < 9 {
                out.push(c);
            }
            j = j + 1;
        }
        assert(bytes@.take(j as int) == bytes@);
        assert(ps.take(i + 1).drop_last() == ps.take(i as int));
        assert(ps.take(i + 1).last() == ps[i as int]);
        i = i + 1;
    }
    assert(ps.take(i as int) == ps);
    out
}

/// The operator type table on a one-character symbol: `&` is 0, `%` is 1,
/// `^` is 2, `#` is 3; every other symbol is unrecognized.
pub open spec fn operator_code(symbol: Seq<char>) -> Option<u16> {
    if symbol.len() != 1 {
        None
    } else if symbol[0] == '&' {
        Some(0u16)
    } else if symbol[0] == '%' {
        Some(1u16)
    } else if symbol[0] == '^' {
        Some(2u16)
    } else if symbol[0] == '#' {
        Some(3u16)
    } else {
        None
    }
}

pub fn mapping_operator_type(x: &str) -> (r: Result<u16, InvalidSymbol>)
    ensures
        r == (match operator_code(x@) {
            Some(c) => Ok::<u16, InvalidSymbol>(c),
            None => Err::<u16, InvalidSymbol>(InvalidSymbol),
        }),
{
    if x.unicode_len() != 1 {
        return Err(InvalidSymbol);
    }
    let c = x.get_char(0);
    if c == '&' {
        Ok(0)
    } else if c == '%' {
        Ok(1)
    } else if c == '^' {
        Ok(2)
    } else if c == '#' {
        Ok(3)
    } else {
        Err(InvalidSymbol)
    }
}

} // verus!

//! Decoding of textual entity identifiers into integers.
use vstd::prelude::*;
use vstd::std_specs::iter::IteratorSpec;
use vstd::string::*;

verus! {

broadcast use vstd::string::group_string_axioms;

/// The reasons why an identifier cannot be decoded.
#[derive(Debug, Clone, Copy, PartialEq, Eq, Structural)]
pub enum IdError {
    /// The identifier does not start with the entity prefix `Q`.
    NotAnEntity,
    /// What follows the prefix is not a decimal integer that fits in a `u64`.
    NotANumber,
}

/// A decimal digit.
pub open spec fn is_digit(c: char) -> bool {
    '0' <= c && c <= '9'
}

/// The value of a decimal digit.
pub open spec fn digit_value(c: char) -> int {
    (c as int) - ('0' as int)
}

/// The value of a sequence of decimal digits, most significant first.
pub open spec fn digits_value(s: Seq<char>) -> int
    decreases s.len(),
{
    if s.len() == 0 {
        0
    } else {
        digits_value(s.drop_last()) * 10 + digit_value(s.last())
    }
}

/// Every character is a decimal digit.
pub open spec fn all_digits(s: Seq<char>) -> bool {
    forall|i: int| 0 <= i < s.len() ==> is_digit(#[trigger] s[i])
}

/// What `u64`'s textual form accepts: an optional `+`, then one or more
/// digits, of a value that fits in 64 bits.
pub open spec fn decimal_u64(s: Seq<char>) -> Option<u64> {
    let d = if s.len() > 0 && s[0] == '+' { s.drop_first() } else { s };
    if d.len() > 0 && all_digits(d) && digits_value(d) <= u64::MAX {
        Some(digits_value(d) as u64)
    } else {
        None
    }
}

/// The integer that an identifier such as `Q42` stands for.
pub open spec fn entity_number(id: Seq<char>) -> Result<u64, IdError> {
    if id.len() == 0 || id[0] != 'Q' {
        Err(IdError::NotAnEntity)
    } else {
        match decimal_u64(id.drop_first()) {
            Some(n) => Ok(n),
            None => Err(IdError::NotANumber),
        }
    }
}

proof fn lemma_digits_value_nonneg(s: Seq<char>)
    requires
        all_digits(s),
    ensures
        digits_value(s) >= 0,
    decreases s.len(),
{
    if s.len() > 0 {
        lemma_digits_value_nonneg(s.drop_last());
    }
}

/// A prefix of a digit sequence is worth no more than the whole sequence.
proof fn lemma_digits_prefix_le(s: Seq<char>, i: int)
    requires
        all_digits(s),
        0 <= i <= s.len(),
    ensures
        digits_value(s.subrange(0, i)) <= digits_value(s),
    decreases s.len(),
{
    if i < s.len() {
        let t = s.drop_last();
        assert(s.subrange(0, i) =~= t.subrange(0, i));
        lemma_digits_prefix_le(t, i);
        lemma_digits_value_nonneg(t);
    } else {
        assert(s.subrange(0, i) =~= s);
    }
}

/// The characters of a string slice, in order.
pub fn chars_of(s: &str) -> (r: Vec<char>)
    ensures
        r@ == s@,
{
    let mut out: Vec<char> = Vec::new();
    let mut it = s.chars();
    loop
        invariant
            out@ + it.remaining() == s@,
            it.decrease() is Some,
        ensures
            out@ == s@,
        decreases it.decrease()->0,
    {
        match it.next() {
            Some(c) => {
                out.push(c);
            },
            None => {
                assert(out@ =~= s@);
                break ;
            },
        }
    }
    out
}

/// Reads a `u64` written in decimal, with an optional leading `+`.
fn parse_decimal(d: &Vec<char>, start: usize, end: usize) -> (r: Option<u64>)
    requires
        start <= end <= d@.len(),
    ensures
        r == decimal_u64(d@.subrange(start as int, end as int)),
{
    let ghost s = d@.subrange(start as int, end as int);
    let mut i = start;
    if i < end && d[i] == '+' {
        i = i + 1;
    }
    let ghost ds = d@.subrange(i as int, end as int);
    assert(ds =~= (if s.len() > 0 && s[0] == '+' { s.drop_first() } else { s }));
    if i == end {
        return None;
    }
    let first = i;
    let mut acc: u64 = 0;
    while i < end
        invariant
            first <= i <= end,
            end <= d@.len(),
            ds == d@.subrange(first as int, end as int),
            s == d@.subrange(start as int, end as int),
            ds == (if s.len() > 0 && s[0] == '+' { s.drop_first() } else { s }),
            all_digits(d@.subrange(first as int, i as int)),
            acc as int == digits_value(d@.subrange(first as int, i as int)),
        decreases end - i,
    {
        let c = d[i];
        if !('0' <= c && c <= '9') {
            assert(!is_digit(ds[i - first]));
            assert(!all_digits(ds));
            return None;
        }
        let v = (c as u32 - '0' as u32) as u64;
        let ghost prefix = d@.subrange(first as int, i as int + 1);
        assert(prefix.drop_last() =~= d@.subrange(first as int, i as int));
        if acc > (u64::MAX - v) / 10 {
            proof {
                assert(digits_value(prefix) > u64::MAX);
                assert forall|k: int| 0 <= k < prefix.len() implies is_digit(#[trigger] prefix[k]) by {
                    if k < prefix.len() - 1 {
                        assert(prefix[k] == d@.subrange(first as int, i as int)[k]);
                    }
                };
                if all_digits(ds) {
                    assert(ds.subrange(0, i - first + 1) =~= prefix);
                    lemma_digits_prefix_le(ds, i - first + 1);
                }
            }
            return None;
        }
        acc = acc * 10 + v;
        i = i + 1;
        assert forall|k: int| 0 <= k < prefix.len() implies is_digit(#[trigger] prefix[k]) by {
            if k < prefix.len() - 1 {
                assert(prefix[k] == d@.subrange(first as int, i as int - 1)[k]);
            }
        };
    }
    assert(ds =~= d@.subrange(first as int, i as int));
    Some(acc)
}

/// Decodes the identifier held by `cs[from..to]`.
pub fn int_id_chars(cs: &Vec<char>, from: usize, to: usize) -> (r: Result<u64, IdError>)
    requires
        from <= to <= cs@.len(),
    ensures
        r == entity_number(cs@.subrange(from as int, to as int)),
{
    let ghost id = cs@.subrange(from as int, to as int);
    if from == to || cs[from] != 'Q' {
        return Err(IdError::NotAnEntity);
    }
    assert(cs@.subrange(from + 1, to as int) =~= id.drop_first());
    match parse_decimal(cs, from + 1, to) {
        Some(n) => Ok(n),
        None => Err(IdError::NotANumber),
    }
}

/// Decodes an entity identifier (`Q` followed by decimal digits) into its number.
pub fn int_id(id: &str) -> (r: Result<u64, IdError>)
    ensures
        r == entity_number(id@),
{
    let cs = chars_of(id);
    assert(cs@.subrange(0, cs@.len() as int) =~= id@);
    int_id_chars(&cs, 0, cs.len())
}

} // verus!

//! The textual form in which a task is submitted: three or four fields
//! separated by single white-space characters, `request_time priority
//! memory_size [depends_on]`, each a decimal integer.

use vstd::prelude::*;

verus! {

/// A request to create a task.
#[derive(Debug, Clone, Copy, PartialEq, Eq, Structural)]
pub struct Command {
    pub request_time: i32,
    pub priority: u32,
    pub memory_size: u32,
    pub depends_on: Option<u32>,
}

/// Why a text is no command.
#[derive(Debug, Clone, Copy, PartialEq, Eq, Structural)]
pub enum CommandError {
    /// It has neither three nor four fields.
    InvalidCommand,
    /// A field is not a decimal integer of its type.
    InvalidNumber,
}

/// The white-space characters of ASCII: space, tab, line feed, vertical
/// tab, form feed, carriage return.
pub open spec fn is_space(b: u8) -> bool {
    b == 32 || (9 <= b <= 13)
}

/// The decimal digits.
pub open spec fn is_digit(b: u8) -> bool {
    48 <= b <= 57
}

/// `a` is where the text begins once its leading white space is gone.
pub open spec fn is_start(s: Seq<u8>, a: int) -> bool {
    &&& 0 <= a <= s.len()
    &&& forall|i: int| 0 <= i < a ==> is_space(#[trigger] s[i])
    &&& (a < s.len() ==> !is_space(s[a]))
}

/// `b` is where the text that begins at `a` ends once its trailing white
/// space is gone.
pub open spec fn is_end(s: Seq<u8>, a: int, b: int) -> bool {
    &&& a <= b <= s.len()
    &&& forall|i: int| b <= i < s.len() ==> is_space(#[trigger] s[i])
    &&& (a < b ==> !is_space(s[b - 1]))
}

/// The text without its leading and trailing white space.
pub open spec fn trimmed(s: Seq<u8>) -> Seq<u8> {
    let a = choose|a: int| is_start(s, a);
    let b = choose|b: int| is_end(s, a, b);
    s.subrange(a, b)
}

/// The fields of a text: what stands between one white-space character and
/// the next. A text without white space is one field; two white-space
/// characters in a row have an empty field between them.
pub open spec fn split(s: Seq<u8>) -> Seq<Seq<u8>>
    decreases s.len(),
{
    if s.len() == 0 {
        seq![Seq::<u8>::empty()]
    } else if is_space(s.last()) {
        split(s.drop_last()).push(Seq::<u8>::empty())
    } else {
        let before = split(s.drop_last());
        before.update(before.len() - 1, before.last().push(s.last()))
    }
}

/// Every character is a decimal digit.
pub open spec fn all_digits(s: Seq<u8>) -> bool {
    forall|i: int| 0 <= i < s.len() ==> is_digit(#[trigger] s[i])
}

/// The number that a sequence of decimal digits denotes.
pub open spec fn value(s: Seq<u8>) -> int
    decreases s.len(),
{
    if s.len() == 0 {
        0
    } else {
        value(s.drop_last()) * 10 + (s.last() - 48)
    }
}

/// The digits of a field, without its sign.
pub open spec fn digits_of(s: Seq<u8>, signed: bool) -> Seq<u8> {
    if s.len() > 0 && (s[0] == 43 || (signed && s[0] == 45)) {
        s.subrange(1, s.len() as int)
    } else {
        s
    }
}

/// The integer that a field denotes: one or more decimal digits, after a
/// `+` or, where `signed`, a `-`.
pub open spec fn number(s: Seq<u8>, signed: bool) -> Option<int> {
    let digits = digits_of(s, signed);
    if digits.len() > 0 && all_digits(digits) {
        if signed && s[0] == 45 {
            Some(-value(digits))
        } else {
            Some(value(digits))
        }
    } else {
        None
    }
}

/// The field as a signed integer of 32 bits.
pub open spec fn i32_of(s: Seq<u8>) -> Option<i32> {
    match number(s, true) {
        Some(v) => if i32::MIN <= v <= i32::MAX {
            Some(v as i32)
        } else {
            None
        },
        None => None,
    }
}

/// The field as an unsigned integer of 32 bits.
pub open spec fn u32_of(s: Seq<u8>) -> Option<u32> {
    match number(s, false) {
        Some(v) => if v <= u32::MAX {
            Some(v as u32)
        } else {
            None
        },
        None => None,
    }
}

/// The command that fields denote.
pub open spec fn command_of_fields(f: Seq<Seq<u8>>) -> Result<Command, CommandError> {
    if f.len() != 3 && f.len() != 4 {
        Err(CommandError::InvalidCommand)
    } else if i32_of(f[0]) is None || u32_of(f[1]) is None || u32_of(f[2]) is None || (f.len() == 4
        && u32_of(f[3]) is None) {
        Err(CommandError::InvalidNumber)
    } else {
        Ok(
            Command {
                request_time: i32_of(f[0]).unwrap(),
                priority: u32_of(f[1]).unwrap(),
                memory_size: u32_of(f[2]).unwrap(),
                depends_on: if f.len() == 4 {
                    u32_of(f[3])
                } else {
                    None
                },
            },
        )
    }
}

/// The command that a text denotes.
pub open spec fn command_of(text: Seq<u8>) -> Result<Command, CommandError> {
    command_of_fields(split(trimmed(text)))
}

/// The views of the fields.
pub open spec fn views(fields: Seq<Vec<u8>>) -> Seq<Seq<u8>> {
    Seq::new(fields.len(), |i: int| fields[i]@)
}

/// Digits denote no negative number.
proof fn lemma_value_nonnegative(s: Seq<u8>)
    requires
        all_digits(s),
    ensures
        value(s) >= 0,
    decreases s.len(),
{
    if s.len() > 0 {
        assert(is_digit(s[s.len() - 1]));
        lemma_value_nonnegative(s.drop_last());
    }
}

/// The bound beyond which no field is a number of 32 bits.
pub const LIMIT: u64 = 4294967296;

/// The number that the characters of `field` from `from` on denote, if
/// they are one or more digits; numbers beyond `LIMIT` are given as
/// `LIMIT`.
fn parse_digits(field: &Vec<u8>, from: usize) -> (r: Option<u64>)
    requires
        from <= field@.len(),
    ensures
        match r {
            None => !(field@.len() > from && all_digits(field@.subrange(from as int, field@.len() as int))),
            Some(m) => {
                let digits = field@.subrange(from as int, field@.len() as int);
                &&& digits.len() > 0
                &&& all_digits(digits)
                &&& m <= LIMIT
                &&& if value(digits) < LIMIT {
                    m == value(digits)
                } else {
                    m == LIMIT
                }
            },
        },
{
    let n = field.len();
    if from >= n {
        return None;
    }
    let ghost digits = field@.subrange(from as int, n as int);
    let mut acc: u64 = 0;
    let mut i: usize = from;
    while i < n
        invariant
            from <= i <= n,
            n == field@.len(),
            digits == field@.subrange(from as int, n as int),
            all_digits(digits.subrange(0, i - from)),
            acc <= LIMIT,
            if value(digits.subrange(0, i - from)) < LIMIT {
                acc == value(digits.subrange(0, i - from))
            } else {
                acc == LIMIT
            },
        decreases n - i,
    {
        let c = field[i];
        if c < 48 || c > 57 {
            proof {
                assert(digits[i - from] == c);
                assert(!is_digit(digits[i - from]));
            }
            return None;
        }
        proof {
            let shorter = digits.subrange(0, i - from);
            let longer = digits.subrange(0, i - from + 1);
            assert(longer.drop_last() =~= shorter);
            assert(longer.last() == c);
            lemma_value_nonnegative(shorter);
            assert forall|k: int| 0 <= k < longer.len() implies is_digit(#[trigger] longer[k]) by {
                if k < shorter.len() {
                    assert(shorter[k] == longer[k]);
                }
            }
        }
        let d: u64 = (c - 48) as u64;
        acc = acc * 10 + d;
        if acc > LIMIT {
            acc = LIMIT;
        }
        i += 1;
    }
    proof {
        assert(digits.subrange(0, n - from) =~= digits);
    }
    Some(acc)
}

/// Reads a field as a signed integer of 32 bits.
pub fn parse_i32(field: &Vec<u8>) -> (r: Option<i32>)
    ensures
        r == i32_of(field@),
{
    if field.len() == 0 {
        return None;
    }
    let negative = field[0] == 45;
    let from: usize = if field[0] == 43 || field[0] == 45 {
        1
    } else {
        0
    };
    proof {
        if from == 0 {
            assert(field@.subrange(0, field@.len() as int) =~= field@);
        }
    }
    match parse_digits(field, from) {
        None => None,
        Some(m) => {
            if negative {
                if m <= 2147483648 {
                    Some((0 - (m as i64)) as i32)
                } else {
                    None
                }
            } else if m <= 2147483647 {
                Some(m as i32)
            } else {
                None
            }
        },
    }
}

/// Reads a field as an unsigned integer of 32 bits.
pub fn parse_u32(field: &Vec<u8>) -> (r: Option<u32>)
    ensures
        r == u32_of(field@),
{
    if field.len() == 0 {
        return None;
    }
    let from: usize = if field[0] == 43 {
        1
    } else {
        0
    };
    proof {
        if from == 0 {
            assert(field@.subrange(0, field@.len() as int) =~= field@);
        }
    }
    match parse_digits(field, from) {
        None => None,
        Some(m) => {
            if m <= 4294967295 {
                Some(m as u32)
            } else {
                None
            }
        },
    }
}

/// Whether a character is white space.
fn space(b: u8) -> (r: bool)
    ensures
        r == is_space(b),
{
    b == 32 || (9 <= b && b <= 13)
}

/// The fields of the text from `from` up to `to`.
fn split_fields(text: &[u8], from: usize, to: usize) -> (fields: Vec<Vec<u8>>)
    requires
        from <= to <= text@.len(),
    ensures
        views(fields@) == split(text@.subrange(from as int, to as int)),
{
    let mut done: Vec<Vec<u8>> = Vec::new();
    let mut cur: Vec<u8> = Vec::new();
    let mut i: usize = from;
    proof {
        assert(text@.subrange(from as int, from as int) =~= Seq::<u8>::empty());
        assert(views(done@).push(cur@) =~= seq![Seq::<u8>::empty()]);
    }
    while i < to
        invariant
            from <= i <= to <= text@.len(),
            views(done@).push(cur@) == split(text@.subrange(from as int, i as int)),
        decreases to - i,
    {
        let c = text[i];
        let ghost before = split(text@.subrange(from as int, i as int));
        proof {
            let longer = text@.subrange(from as int, i + 1);
            assert(longer.drop_last() =~= text@.subrange(from as int, i as int));
            assert(longer.last() == c);
        }
        if space(c) {
            let ghost field = cur@;
            let ghost fields = views(done@);
            done.push(cur);
            cur = Vec::new();
            proof {
                assert(views(done@) =~= fields.push(field));
            }
        } else {
            let ghost field = cur@;
            cur.push(c);
            proof {
                assert(views(done@).push(cur@) =~= before.update(
                    before.len() - 1,
                    before.last().push(c),
                ));
            }
        }
        i += 1;
    }
    let ghost fields = views(done@);
    let ghost field = cur@;
    done.push(cur);
    proof {
        assert(views(done@) =~= fields.push(field));
    }
    done
}

/// Where the text begins and ends without the white space around it.
fn trim(text: &[u8]) -> (r: (usize, usize))
    ensures
        r.0 <= r.1 <= text@.len(),
        text@.subrange(r.0 as int, r.1 as int) == trimmed(text@),
{
    let n = text.len();
    let mut a: usize = 0;
    while a < n && space(text[a])
        invariant
            a <= n,
            n == text@.len(),
            forall|i: int| 0 <= i < a ==> is_space(#[trigger] text@[i]),
        decreases n - a,
    {
        a += 1;
    }
    let mut b: usize = n;
    while b > a && space(text[b - 1])
        invariant
            a <= b <= n,
            n == text@.len(),
            forall|i: int| b <= i < n ==> is_space(#[trigger] text@[i]),
        decreases b,
    {
        b -= 1;
    }
    proof {
        let s = text@;
        assert(is_start(s, a as int));
        let a0 = choose|x: int| is_start(s, x);
        assert(is_start(s, a0));
        if a0 < a {
            assert(is_space(s[a0]));
        }
        if a < a0 {
            assert(is_space(s[a as int]));
        }
        assert(is_end(s, a as int, b as int));
        let b0 = choose|y: int| is_end(s, a0, y);
        assert(is_end(s, a0, b0));
        if b0 < b {
            assert(is_space(s[b - 1]));
        }
        if b < b0 {
            assert(is_space(s[b0 - 1]));
        }
    }
    (a, b)
}

/// Reads a command: the white space around the text is dropped, what is
/// left is cut at each white-space character, and the three or four fields
/// are read as integers.
pub fn parse_command(text: &[u8]) -> (r: Result<Command, CommandError>)
    ensures
        r == command_of(text@),
{
    let (a, b) = trim(text);
    let fields = split_fields(text, a, b);
    let n = fields.len();
    proof {
        assert(views(fields@).len() == n);
        assert forall|i: int| 0 <= i < n implies views(fields@)[i] == fields@[i]@ by {}
    }
    if n != 3 && n != 4 {
        return Err(CommandError::InvalidCommand);
    }
    let request_time = parse_i32(&fields[0]);
    let priority = parse_u32(&fields[1]);
    let memory_size = parse_u32(&fields[2]);
    let depends_on = if n == 4 {
        parse_u32(&fields[3])
    } else {
        None
    };
    match (request_time, priority, memory_size) {
        (Some(request_time), Some(priority), Some(memory_size)) => {
            if n == 4 && depends_on.is_none() {
                Err(CommandError::InvalidNumber)
            } else {
                Ok(Command { request_time, priority, memory_size, depends_on })
            }
        },
        _ => Err(CommandError::InvalidNumber),
    }
}

} // verus!

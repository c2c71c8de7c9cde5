//! Reading a ranked ballot written as `"1 > 3 > 2"`: candidate numbers, most
//! preferred first, separated by `>`, with white space allowed around each.
use crate::condorcet_voting::Ballot;
use vstd::prelude::*;

verus! {

/// `c` is white space, as `char::is_whitespace` counts it.
pub open spec fn is_space(c: char) -> bool {
    let u = c as u32;
    ||| u == 0x20
    ||| 0x09 <= u <= 0x0d
    ||| u == 0x85
    ||| u == 0xa0
    ||| u == 0x1680
    ||| 0x2000 <= u <= 0x200a
    ||| u == 0x2028
    ||| u == 0x2029
    ||| u == 0x202f
    ||| u == 0x205f
    ||| u == 0x3000
}

fn space(c: char) -> (r: bool)
    ensures
        r == is_space(c),
{
    let u = c as u32;
    u == 0x20 || (0x09 <= u && u <= 0x0d) || u == 0x85 || u == 0xa0 || u == 0x1680 || (0x2000 <= u
        && u <= 0x200a) || u == 0x2028 || u == 0x2029 || u == 0x202f || u == 0x205f || u == 0x3000
}

/// `t` without its leading white space.
pub open spec fn trim_start(t: Seq<char>) -> Seq<char>
    decreases t.len(),
{
    if t.len() > 0 && is_space(t[0]) {
        trim_start(t.drop_first())
    } else {
        t
    }
}

/// `t` without its trailing white space.
pub open spec fn trim_end(t: Seq<char>) -> Seq<char>
    decreases t.len(),
{
    if t.len() > 0 && is_space(t.last()) {
        trim_end(t.drop_last())
    } else {
        t
    }
}

/// `t` without white space at either end.
pub open spec fn trimmed(t: Seq<char>) -> Seq<char> {
    trim_end(trim_start(t))
}

/// The parts of `s` between the `>` signs, in order; `s` with no `>` is one
/// part.
pub open spec fn split_choices(s: Seq<char>) -> Seq<Seq<char>>
    decreases s.len(),
{
    if s.len() == 0 {
        seq![Seq::empty()]
    } else {
        let rest = split_choices(s.drop_last());
        if s.last() == '>' {
            rest.push(Seq::empty())
        } else {
            rest.update(rest.len() - 1, rest.last().push(s.last()))
        }
    }
}

/// `c` is one of the ASCII digits `0` to `9`.
pub open spec fn is_digit(c: char) -> bool {
    '0' <= c && c <= '9'
}

/// The number that the decimal digits `d` write.
pub open spec fn decimal(d: Seq<char>) -> int
    decreases d.len(),
{
    if d.len() == 0 {
        0
    } else {
        decimal(d.drop_last()) * 10 + (d.last() as int - '0' as int)
    }
}

/// The digits of `t`, without the `+` that may lead them.
pub open spec fn unsigned_digits(t: Seq<char>) -> Seq<char> {
    if t.len() > 0 && t[0] == '+' {
        t.drop_first()
    } else {
        t
    }
}

/// The `u32` that `t` writes in decimal, with an optional leading `+`, if
/// it writes one.
pub open spec fn parse_number(t: Seq<char>) -> Option<u32> {
    let d = unsigned_digits(t);
    if d.len() > 0 && (forall|i: int| 0 <= i < d.len() ==> is_digit(#[trigger] d[i])) && decimal(d)
        <= u32::MAX {
        Some(decimal(d) as u32)
    } else {
        None
    }
}

/// The candidate that part `p` of a ballot names.
pub open spec fn choice_of(p: Seq<char>) -> Option<u32> {
    parse_number(trimmed(p))
}

/// Why a ballot could not be read.
#[derive(Debug, Clone, Copy, PartialEq, Eq)]
pub enum ParseError {
    /// The part at `choice_index` is not a candidate number.
    NotANumber { choice_index: usize },
    /// A candidate is named twice.
    Duplicates,
}

proof fn lemma_split_nonempty(s: Seq<char>)
    ensures
        split_choices(s).len() >= 1,
    decreases s.len(),
{
    if s.len() > 0 {
        lemma_split_nonempty(s.drop_last());
    }
}

proof fn lemma_decimal_prefix(d: Seq<char>, k: int)
    requires
        0 <= k <= d.len(),
        forall|i: int| 0 <= i < d.len() ==> is_digit(#[trigger] d[i]),
    ensures
        0 <= decimal(d.take(k)) <= decimal(d),
    decreases d.len(),
{
    if k == d.len() {
        assert(d.take(k) =~= d);
        if d.len() > 0 {
            lemma_decimal_prefix(d.drop_last(), k - 1);
            assert(d.drop_last().take(k - 1) =~= d.drop_last());
            assert(is_digit(d[d.len() - 1]));
        }
    } else {
        assert(d.drop_last().take(k) =~= d.take(k));
        lemma_decimal_prefix(d.drop_last(), k);
        assert(is_digit(d[d.len() - 1]));
    }
}

/// Reads one part of a ballot: white space at either end is skipped, and
/// what is left must be a `u32` in decimal, with an optional leading `+`.
fn parse_choice(piece: &Vec<char>) -> (r: Option<u32>)
    ensures
        r == choice_of(piece@),
{
    let len = piece.len();
    let mut lo: usize = 0;
    assert(piece@.subrange(0, len as int) =~= piece@);
    while lo < len && space(piece[lo])
        invariant
            len == piece@.len(),
            lo <= len,
            trim_start(piece@) == trim_start(piece@.subrange(lo as int, len as int)),
        decreases len - lo,
    {
        assert(piece@.subrange(lo as int, len as int).drop_first() =~= piece@.subrange(
            lo + 1,
            len as int,
        ));
        lo = lo + 1;
    }
    assert(trim_start(piece@) == piece@.subrange(lo as int, len as int));
    let mut hi: usize = len;
    while hi > lo && space(piece[hi - 1])
        invariant
            len == piece@.len(),
            lo <= hi <= len,
            trimmed(piece@) == trim_end(piece@.subrange(lo as int, hi as int)),
        decreases hi,
    {
        assert(piece@.subrange(lo as int, hi as int).drop_last() =~= piece@.subrange(
            lo as int,
            hi - 1,
        ));
        hi = hi - 1;
    }
    let ghost t = piece@.subrange(lo as int, hi as int);
    assert(trimmed(piece@) == t);
    let mut start = lo;
    if start < hi && piece[start] == '+' {
        start = start + 1;
    }
    let ghost d = piece@.subrange(start as int, hi as int);
    assert(unsigned_digits(t) =~= d);
    assert(choice_of(piece@) == parse_number(t));
    if start == hi {
        return None;
    }
    let mut value: u64 = 0;
    let mut k: usize = start;
    while k < hi
        invariant
            lo <= start <= k <= hi <= len,
            len == piece@.len(),
            d == piece@.subrange(start as int, hi as int),
            choice_of(piece@) == parse_number(t),
            unsigned_digits(t) == d,
            d.len() > 0,
            forall|i: int| 0 <= i < k - start ==> is_digit(#[trigger] d[i]),
            value == decimal(d.take(k - start)),
            value <= u32::MAX,
        decreases hi - k,
    {
        let c = piece[k];
        if !('0' <= c && c <= '9') {
            assert(!is_digit(d[k - start]));
            return None;
        }
        proof {
            assert(d.take(k - start + 1).drop_last() =~= d.take(k - start));
            assert(d.take(k - start + 1).last() == c);
        }
        value = value * 10 + (c as u64 - '0' as u64);
        assert(value == decimal(d.take(k - start + 1)));
        if value > u32::MAX as u64 {
            proof {
                if forall|i: int| 0 <= i < d.len() ==> is_digit(#[trigger] d[i]) {
                    lemma_decimal_prefix(d, k - start + 1);
                }
            }
            return None;
        }
        k = k + 1;
    }
    assert(d.take(k - start) =~= d);
    Some(value as u32)
}

/// Reads a ranked ballot such as `"1 > 3 > 2"`: the parts between the `>`
/// signs, each a candidate number with white space allowed around it. A
/// part that is no number, or a candidate named twice, is an error.
pub fn parse_cv_ballot(ballot_str: String) -> (r: Result<Ballot, ParseError>)
    ensures
        ({
            let parts = split_choices(ballot_str@);
            &&& (r matches Err(ParseError::NotANumber { choice_index }) ==> {
                &&& choice_index < parts.len()
                &&& choice_of(parts[choice_index as int]) is None
                &&& forall|k: int| 0 <= k < choice_index ==> #[trigger] choice_of(parts[k]) is Some
            })
            &&& (r is Err && r->Err_0 is Duplicates) ==> (forall|k: int|
                0 <= k < parts.len() ==> #[trigger] choice_of(parts[k]) is Some)
                && !parts.map_values(|p: Seq<char>| choice_of(p)->Some_0).no_duplicates()
            &&& (r is Ok <==> (forall|k: int| 0 <= k < parts.len() ==> #[trigger] choice_of(parts[k]) is Some)
                && parts.map_values(|p: Seq<char>| choice_of(p)->Some_0).no_duplicates())
            &&& (r matches Ok(b) ==> b@ == parts.map_values(|p: Seq<char>| choice_of(p)->Some_0))
        }),
{
    let ghost s = ballot_str@;
    let text = ballot_str.as_str();
    let mut done: Vec<Vec<char>> = Vec::new();
    let mut current: Vec<char> = Vec::new();
    proof {
        assert(s.take(0) =~= Seq::<char>::empty());
    }
    for c in it: text.chars()
        invariant
            s == ballot_str@,
            it.seq() == s,
            done@.map_values(|v: Vec<char>| v@).push(current@) == split_choices(s.take(it.index())),
    {
        let ghost i = it.index();
        proof {
            lemma_split_nonempty(s.take(i));
            assert(s.take(i + 1).drop_last() =~= s.take(i));
            assert(s.take(i + 1).last() == c);
        }
        if c == '>' {
            done.push(current);
            current = Vec::new();
            proof {
                assert(done@.map_values(|v: Vec<char>| v@).push(current@) =~= split_choices(
                    s.take(i + 1),
                ));
            }
        } else {
            let ghost before = done@.map_values(|v: Vec<char>| v@).push(current@);
            current.push(c);
            proof {
                assert(done@.map_values(|v: Vec<char>| v@).push(current@) =~= before.update(
                    before.len() - 1,
                    before.last().push(c),
                ));
            }
        }
    }
    done.push(current);
    let ghost parts = split_choices(s);
    proof {
        assert(s.take(s.len() as int) =~= s);
        assert(done@.map_values(|v: Vec<char>| v@) == parts);
    }
    let mut ballot: Ballot = Vec::new();
    let mut i: usize = 0;
    while i < done.len()
        invariant
            s == ballot_str@,
            parts == split_choices(s),
            done@.map_values(|v: Vec<char>| v@) == parts,
            i <= done@.len(),
            ballot@.len() == i,
            forall|k: int| 0 <= k < i ==> #[trigger] choice_of(parts[k]) is Some,
            forall|k: int| 0 <= k < i ==> ballot@[k] == choice_of(parts[k])->Some_0,
        decreases done@.len() - i,
    {
        assert(done@[i as int]@ == parts[i as int]);
        match parse_choice(&done[i]) {
            Some(choice) => {
                ballot.push(choice);
            },
            None => {
                assert(choice_of(parts[i as int]) is None);
                return Err(ParseError::NotANumber { choice_index: i });
            },
        }
        i = i + 1;
    }
    let ghost values = parts.map_values(|p: Seq<char>| choice_of(p)->Some_0);
    assert(ballot@ =~= values);
    assert(forall|k: int| 0 <= k < parts.len() ==> #[trigger] choice_of(parts[k]) is Some);
    let mut a: usize = 0;
    while a < ballot.len()
        invariant
            s == ballot_str@,
            parts == split_choices(s),
            values == parts.map_values(|p: Seq<char>| choice_of(p)->Some_0),
            forall|k: int| 0 <= k < parts.len() ==> #[trigger] choice_of(parts[k]) is Some,
            ballot@ == values,
            a <= ballot@.len(),
            forall|x: int, y: int| 0 <= x < a && 0 <= y < ballot@.len() && x != y ==> ballot@[x] != ballot@[y],
        decreases ballot@.len() - a,
    {
        let mut b: usize = 0;
        while b < ballot.len()
            invariant
                s == ballot_str@,
                parts == split_choices(s),
                values == parts.map_values(|p: Seq<char>| choice_of(p)->Some_0),
                forall|k: int| 0 <= k < parts.len() ==> #[trigger] choice_of(parts[k]) is Some,
                ballot@ == values,
                a < ballot@.len(),
                b <= ballot@.len(),
                forall|x: int, y: int| 0 <= x < a && 0 <= y < ballot@.len() && x != y ==> ballot@[x] != ballot@[y],
                forall|y: int| 0 <= y < b && y != a ==> ballot@[a as int] != ballot@[y],
            decreases ballot@.len() - b,
        {
            if a != b && ballot[a] == ballot[b] {
                assert(values[a as int] == values[b as int]);
                return Err(ParseError::Duplicates);
            }
            b = b + 1;
        }
        a = a + 1;
    }
    Ok(ballot)
}

} // verus!

//! Character-level helpers on strings: trimming and the comma-separated list
//! grammar that list-membership rules read.
use vstd::prelude::*;
use vstd::string::StrSliceExecFns;

verus! {

/// The characters with the Unicode `White_Space` property.
pub open spec fn is_white_space(c: char) -> bool {
    let u = c as u32;
    (0x09 <= u <= 0x0d) || u == 0x20 || u == 0x85 || u == 0xa0 || u == 0x1680 || (0x2000 <= u
        <= 0x200a) || u == 0x2028 || u == 0x2029 || u == 0x202f || u == 0x205f || u == 0x3000
}

pub open spec fn trim_start(s: Seq<char>) -> Seq<char>
    decreases s.len(),
{
    if s.len() > 0 && is_white_space(s[0]) {
        trim_start(s.drop_first())
    } else {
        s
    }
}

pub open spec fn trim_end(s: Seq<char>) -> Seq<char>
    decreases s.len(),
{
    if s.len() > 0 && is_white_space(s.last()) {
        trim_end(s.drop_last())
    } else {
        s
    }
}

/// `s` without leading and trailing white space.
pub open spec fn trimmed(s: Seq<char>) -> Seq<char> {
    trim_end(trim_start(s))
}

/// Relies on `str::trim`: the slice of `s` without leading and trailing
/// characters of the Unicode `White_Space` property.
#[verifier::external_body]
pub(crate) fn trim(s: &str) -> (r: &str)
    ensures
        r@ == trimmed(s@),
{
    s.trim()
}

/// Every character of `s` is a plain space.
pub open spec fn all_spaces(s: Seq<char>) -> bool {
    forall|i: int| 0 <= i < s.len() ==> s[i] == ' '
}

/// What stands before a list entry: nothing, or text that ends in a comma
/// followed by spaces.
pub open spec fn opens_entry(p: Seq<char>) -> bool {
    p.len() == 0 || exists|k: int|
        0 <= k < p.len() && p[k] == ',' && all_spaces(#[trigger] p.subrange(k + 1, p.len() as int))
}

/// What stands after a list entry: nothing, or spaces followed by a comma
/// and any text.
pub open spec fn closes_entry(s: Seq<char>) -> bool {
    s.len() == 0 || exists|k: int|
        0 <= k < s.len() && s[k] == ',' && all_spaces(#[trigger] s.subrange(0, k))
}

/// `token` occurs in `list` at position `i` as one whole entry.
pub open spec fn entry_at(list: Seq<char>, token: Seq<char>, i: int) -> bool {
    &&& 0 <= i
    &&& i + token.len() <= list.len()
    &&& list.subrange(i, i + token.len()) == token
    &&& opens_entry(list.subrange(0, i))
    &&& closes_entry(list.subrange(i + token.len(), list.len() as int))
}

/// `token` is one whole entry of the comma-separated `list`, whose entries
/// may be padded with spaces.
pub open spec fn in_list(list: Seq<char>, token: Seq<char>) -> bool {
    exists|i: int| entry_at(list, token, i)
}

/// The characters of `s`, one by one.
pub fn chars_of(s: &str) -> (r: Vec<char>)
    ensures
        r@ == s@,
{
    let n = s.unicode_len();
    let mut r: Vec<char> = Vec::new();
    let mut i: usize = 0;
    while i < n
        invariant
            n == s@.len(),
            i <= n,
            r@ == s@.subrange(0, i as int),
        decreases n - i,
    {
        r.push(s.get_char(i));
        i += 1;
    }
    assert(r@ =~= s@);
    r
}

/// Whether two character sequences are equal.
pub fn same_chars(a: &Vec<char>, b: &Vec<char>) -> (r: bool)
    ensures
        r == (a@ == b@),
{
    if a.len() != b.len() {
        return false;
    }
    let mut i: usize = 0;
    while i < a.len()
        invariant
            a@.len() == b@.len(),
            i <= a@.len(),
            forall|j: int| 0 <= j < i ==> a@[j] == b@[j],
        decreases a.len() - i,
    {
        if a[i] != b[i] {
            return false;
        }
        i += 1;
    }
    assert(a@ =~= b@);
    true
}

/// Whether `token` occurs in `list` starting at position `i`.
fn occurs_at(list: &Vec<char>, token: &Vec<char>, i: usize) -> (r: bool)
    requires
        i + token@.len() <= list@.len(),
    ensures
        r == (list@.subrange(i as int, i + token@.len()) == token@),
{
    let n = list.len();
    let mut j: usize = 0;
    while j < token.len()
        invariant
            n == list@.len(),
            i + token@.len() <= list@.len(),
            j <= token@.len(),
            forall|k: int| 0 <= k < j ==> list@[i + k] == token@[k],
        decreases token.len() - j,
    {
        if list[i + j] != token[j] {
            assert(list@.subrange(i as int, i + token@.len())[j as int] != token@[j as int]);
            return false;
        }
        j += 1;
    }
    assert(list@.subrange(i as int, i + token@.len()) =~= token@);
    true
}

/// Whether the first `end` characters of `list` may stand before an entry.
fn opens_at(list: &Vec<char>, end: usize) -> (r: bool)
    requires
        end <= list@.len(),
    ensures
        r == opens_entry(list@.subrange(0, end as int)),
{
    let ghost p = list@.subrange(0, end as int);
    if end == 0 {
        return true;
    }
    let mut j: usize = end;
    while j > 0 && list[j - 1] == ' '
        invariant
            j <= end <= list@.len(),
            p == list@.subrange(0, end as int),
            all_spaces(p.subrange(j as int, end as int)),
        decreases j,
    {
        assert(p.subrange(j - 1, end as int) =~= seq![' '].add(p.subrange(j as int, end as int)));
        j -= 1;
    }
    if j > 0 && list[j - 1] == ',' {
        let ghost k = j - 1;
        assert(p.subrange(k + 1, p.len() as int) == p.subrange(j as int, end as int));
        assert(0 <= k < p.len() && p[k] == ',' && all_spaces(p.subrange(k + 1, p.len() as int)));
        return true;
    }
    assert forall|k: int|
        0 <= k < p.len() && p[k] == ',' implies !all_spaces(
        #[trigger] p.subrange(k + 1, p.len() as int),
    ) by {
        if k + 1 <= j - 1 {
            assert(p.subrange(k + 1, p.len() as int)[j - 1 - (k + 1)] == p[j - 1]);
        } else {
            assert(p.subrange(j as int, end as int)[k - j] == p[k]);
        }
    }
    false
}

/// Whether the characters of `list` from `start` on may stand after an entry.
fn closes_at(list: &Vec<char>, start: usize) -> (r: bool)
    requires
        start <= list@.len(),
    ensures
        r == closes_entry(list@.subrange(start as int, list@.len() as int)),
{
    let ghost s = list@.subrange(start as int, list@.len() as int);
    if start == list.len() {
        return true;
    }
    let mut j: usize = start;
    while j < list.len() && list[j] == ' '
        invariant
            start <= j <= list@.len(),
            s == list@.subrange(start as int, list@.len() as int),
            all_spaces(s.subrange(0, j - start)),
        decreases list.len() - j,
    {
        assert(s.subrange(0, j + 1 - start) =~= s.subrange(0, j - start).push(' '));
        j += 1;
    }
    if j < list.len() && list[j] == ',' {
        let ghost k = j - start;
        assert(0 <= k < s.len() && s[k] == ',' && all_spaces(s.subrange(0, k)));
        return true;
    }
    assert forall|k: int| 0 <= k < s.len() && s[k] == ',' implies !all_spaces(
        #[trigger] s.subrange(0, k),
    ) by {
        if k > j - start {
            assert(s.subrange(0, k)[j - start] == s[j - start]);
        } else {
            assert(s.subrange(0, j - start)[k] == s[k]);
        }
    }
    false
}

/// Whether `token` is one whole entry of the comma-separated `list`.
pub fn list_contains(list: &Vec<char>, token: &Vec<char>) -> (r: bool)
    ensures
        r == in_list(list@, token@),
{
    if token.len() > list.len() {
        return false;
    }
    let n = list.len();
    let last = n - token.len();
    let mut i: usize = 0;
    loop
        invariant
            n == list@.len(),
            last == list@.len() - token@.len(),
            i <= last,
            forall|j: int| 0 <= j < i ==> !entry_at(list@, token@, j),
        decreases last - i,
    {
        if occurs_at(list, token, i) && opens_at(list, i) && closes_at(list, i + token.len()) {
            assert(entry_at(list@, token@, i as int));
            return true;
        }
        if i == last {
            assert forall|j: int| !entry_at(list@, token@, j) by {
                if 0 <= j <= i {
                }
            }
            return false;
        }
        i += 1;
    }
}

} // verus!

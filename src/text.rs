//! Character-level helpers shared by the codec, the directory tree and the shell.
use vstd::prelude::*;
use vstd::string::StringExecFns;

verus! {

/// Relies on `String::push`: appends one character.
#[verifier::external_body]
pub(crate) fn push_char(s: &mut String, c: char)
    ensures
        final(s)@ == old(s)@.push(c),
{
    s.push(c)
}

/// The characters of `s`, in order.
pub fn chars_of(s: &str) -> (r: Vec<char>)
    ensures
        r@ == s@,
{
    let mut out: Vec<char> = Vec::new();
    for c in it: s.chars()
        invariant
            out@ == it.seq().take(it.index() as int),
    {
        out.push(c);
    }
    out
}

/// Appends the characters `cs` to `s`.
pub fn push_chars(s: &mut String, cs: &[char])
    ensures
        final(s)@ == old(s)@ + cs@,
{
    let mut i: usize = 0;
    while i < cs.len()
        invariant
            i <= cs@.len(),
            s@ == old(s)@ + cs@.take(i as int),
        decreases cs.len() - i,
    {
        push_char(s, cs[i]);
        proof {
            assert(cs@.take(i + 1) == cs@.take(i as int).push(cs@[i as int]));
        }
        i = i + 1;
    }
    proof {
        assert(cs@.take(cs@.len() as int) == cs@);
    }
}

/// A string holding the characters `cs`.
pub fn string_of(cs: &[char]) -> (r: String)
    ensures
        r@ == cs@,
{
    let mut s = String::new();
    push_chars(&mut s, cs);
    s
}

/// Unicode `White_Space`, the set that `char::is_whitespace` tests.
pub open spec fn is_space(c: char) -> bool {
    let u = c as u32;
    (0x09 <= u && u <= 0x0d) || u == 0x20 || u == 0x85 || u == 0xa0 || u == 0x1680
        || (0x2000 <= u && u <= 0x200a) || u == 0x2028 || u == 0x2029 || u == 0x202f
        || u == 0x205f || u == 0x3000
}

pub fn space(c: char) -> (r: bool)
    ensures
        r == is_space(c),
{
    let u = c as u32;
    (0x09 <= u && u <= 0x0d) || u == 0x20 || u == 0x85 || u == 0xa0 || u == 0x1680
        || (0x2000 <= u && u <= 0x200a) || u == 0x2028 || u == 0x2029 || u == 0x202f
        || u == 0x205f || u == 0x3000
}

/// The words of `s[i..]`, given the word `cur` in progress and the words `done` before it.
pub open spec fn words_from(s: Seq<char>, i: int, cur: Seq<char>, done: Seq<Seq<char>>) -> Seq<
    Seq<char>,
>
    decreases s.len() - i,
{
    let closed = if cur.len() > 0 {
        done.push(cur)
    } else {
        done
    };
    if i >= s.len() || i < 0 {
        closed
    } else if is_space(s[i]) {
        words_from(s, i + 1, Seq::empty(), closed)
    } else {
        words_from(s, i + 1, cur.push(s[i]), done)
    }
}

/// The maximal runs of non-whitespace characters of `s`, in order.
pub open spec fn words(s: Seq<char>) -> Seq<Seq<char>> {
    words_from(s, 0, Seq::empty(), Seq::empty())
}

/// The text after the last whitespace character of `s` (all of `s` if it has none).
pub open spec fn last_word(s: Seq<char>) -> Seq<char>
    decreases s.len(),
{
    if s.len() == 0 || is_space(s.last()) {
        Seq::empty()
    } else {
        last_word(s.drop_last()).push(s.last())
    }
}

/// `p` is a prefix of `s`.
pub open spec fn is_prefix(p: Seq<char>, s: Seq<char>) -> bool {
    p.len() <= s.len() && s.take(p.len() as int) == p
}

/// The items of `v` separated by single spaces.
pub open spec fn join_spaced(v: Seq<Seq<char>>) -> Seq<char>
    decreases v.len(),
{
    if v.len() == 0 {
        Seq::empty()
    } else if v.len() == 1 {
        v[0]
    } else {
        join_spaced(v.drop_last()) + seq![' '] + v.last()
    }
}

/// The views of a sequence of strings.
pub open spec fn views(v: Seq<String>) -> Seq<Seq<char>> {
    v.map_values(|s: String| s@)
}

/// Splits `s` into its whitespace-separated words.
pub fn split_words(s: &[char]) -> (r: Vec<Vec<char>>)
    ensures
        r@.map_values(|w: Vec<char>| w@) == words(s@),
{
    let mut done: Vec<Vec<char>> = Vec::new();
    let mut cur: Vec<char> = Vec::new();
    let mut i: usize = 0;
    proof {
        assert(done@.map_values(|w: Vec<char>| w@) =~= Seq::<Seq<char>>::empty());
    }
    while i < s.len()
        invariant
            i <= s@.len(),
            words(s@) == words_from(s@, i as int, cur@, done@.map_values(|w: Vec<char>| w@)),
        decreases s.len() - i,
    {
        let ghost d = done@.map_values(|w: Vec<char>| w@);
        proof {
            let closed = if cur@.len() > 0 { d.push(cur@) } else { d };
            if is_space(s@[i as int]) {
                assert(words_from(s@, i as int, cur@, d) == words_from(s@, i + 1, Seq::empty(), closed));
            } else {
                assert(words_from(s@, i as int, cur@, d) == words_from(s@, i + 1, cur@.push(s@[i as int]), d));
            }
        }
        if space(s[i]) {
            if cur.len() > 0 {
                let w = cur;
                cur = Vec::new();
                done.push(w);
                proof {
                    assert(done@.map_values(|w: Vec<char>| w@) =~= d.push(w@));
                }
            } else {
                proof {
                    assert(cur@ =~= Seq::<char>::empty());
                }
            }
        } else {
            cur.push(s[i]);
        }
        i = i + 1;
    }
    let ghost d = done@.map_values(|w: Vec<char>| w@);
    if cur.len() > 0 {
        let w = cur;
        done.push(w);
        proof {
            assert(done@.map_values(|w: Vec<char>| w@) == d.push(w@));
        }
    }
    done
}

/// The text after the last whitespace character of `s`.
pub fn last_word_of(s: &[char]) -> (r: Vec<char>)
    ensures
        r@ == last_word(s@),
{
    let mut start: usize = s.len();
    proof {
        assert(s@.take(start as int) == s@);
        assert(s@.subrange(start as int, start as int) =~= Seq::<char>::empty());
    }
    while start > 0 && !space(s[start - 1])
        invariant
            start <= s@.len(),
            last_word(s@) == last_word(s@.take(start as int)) + s@.subrange(start as int, s@.len() as int),
        decreases start,
    {
        proof {
            let t = s@.take(start as int);
            assert(t.drop_last() == s@.take(start - 1));
            assert(s@.subrange(start - 1, s@.len() as int) == seq![t.last()] + s@.subrange(start as int, s@.len() as int));
        }
        start = start - 1;
    }
    let mut out: Vec<char> = Vec::new();
    let mut i: usize = start;
    while i < s.len()
        invariant
            start <= i <= s@.len(),
            out@ == s@.subrange(start as int, i as int),
        decreases s.len() - i,
    {
        out.push(s[i]);
        i = i + 1;
    }
    proof {
        let t = s@.take(start as int);
        if start > 0 {
            assert(is_space(t.last()));
        }
        assert(last_word(t) == Seq::<char>::empty());
        assert(last_word(s@) == out@);
    }
    out
}

/// Whether `p` is a prefix of `s`.
pub fn has_prefix(p: &[char], s: &[char]) -> (r: bool)
    ensures
        r == is_prefix(p@, s@),
{
    if p.len() > s.len() {
        return false;
    }
    let mut i: usize = 0;
    while i < p.len()
        invariant
            p@.len() <= s@.len(),
            i <= p@.len(),
            s@.take(i as int) == p@.take(i as int),
        decreases p.len() - i,
    {
        if p[i] != s[i] {
            proof {
                assert(s@.take(p@.len() as int)[i as int] != p@[i as int]);
            }
            return false;
        }
        proof {
            assert(s@.take(i + 1) == s@.take(i as int).push(s@[i as int]));
            assert(p@.take(i + 1) == p@.take(i as int).push(p@[i as int]));
        }
        i = i + 1;
    }
    proof {
        assert(p@.take(p@.len() as int) == p@);
    }
    true
}

/// Joins `v` with single spaces.
pub fn join_with_spaces(v: &Vec<String>) -> (r: String)
    ensures
        r@ == join_spaced(views(v@)),
{
    let mut out = String::new();
    let mut i: usize = 0;
    while i < v.len()
        invariant
            i <= v@.len(),
            out@ == join_spaced(views(v@).take(i as int)),
        decreases v.len() - i,
    {
        proof {
            let t = views(v@).take(i + 1);
            assert(t.drop_last() == views(v@).take(i as int));
            assert(t.last() == v@[i as int]@);
        }
        if i > 0 {
            push_char(&mut out, ' ');
        }
        out.append(v[i].as_str());
        i = i + 1;
    }
    proof {
        assert(views(v@).take(v@.len() as int) == views(v@));
    }
    out
}


/// Whether `a` and `b` hold the same characters.
pub fn same_chars(a: &[char], b: &[char]) -> (r: bool)
    ensures
        r == (a@ == b@),
{
    if a.len() != b.len() {
        return false;
    }
    let r = has_prefix(a, b);
    proof {
        assert(b@.take(a@.len() as int) =~= b@);
    }
    r
}

} // verus!

//! Operations on strings, stated over their character sequences.
use vstd::prelude::*;
use vstd::string::*;

verus! {

/// The pieces of `s` between occurrences of `sep`, as `str::split` with a
/// `char` pattern yields them: `n` separators give `n + 1` pieces, and the
/// empty string gives one empty piece.
pub open spec fn split_spec(s: Seq<char>, sep: char) -> Seq<Seq<char>>
    decreases s.len(),
{
    if s.len() == 0 {
        seq![Seq::<char>::empty()]
    } else {
        let prev = split_spec(s.drop_last(), sep);
        if s.last() == sep {
            prev.push(Seq::<char>::empty())
        } else {
            prev.update(prev.len() - 1, prev.last().push(s.last()))
        }
    }
}

/// Splitting always yields at least one piece.
pub proof fn lemma_split_nonempty(s: Seq<char>, sep: char)
    ensures
        split_spec(s, sep).len() >= 1,
    decreases s.len(),
{
    if s.len() > 0 {
        lemma_split_nonempty(s.drop_last(), sep);
    }
}

/// The views of a sequence of strings.
pub open spec fn views(v: Seq<String>) -> Seq<Seq<char>> {
    v.map_values(|x: String| x@)
}

/// Splits `s` at every occurrence of `sep`.
pub fn split_on(s: &str, sep: char) -> (r: Vec<String>)
    ensures
        views(r@) == split_spec(s@, sep),
        r@.len() >= 1,
{
    let n = s.unicode_len();
    let mut parts: Vec<String> = Vec::new();
    let mut start: usize = 0;
    let mut i: usize = 0;
    assert(s@.subrange(0, 0) =~= Seq::<char>::empty());
    assert(views(parts@).push(s@.subrange(0, 0)) =~= split_spec(s@.subrange(0, 0), sep));
    while i < n
        invariant
            n == s@.len(),
            start <= i <= n,
            views(parts@).push(s@.subrange(start as int, i as int)) == split_spec(
                s@.subrange(0, i as int),
                sep,
            ),
        decreases n - i,
    {
        let c = s.get_char(i);
        let ghost prefix = s@.subrange(0, i as int);
        let ghost next = s@.subrange(0, i + 1);
        assert(next.drop_last() =~= prefix);
        assert(next.last() == c);
        if c == sep {
            let ghost before = parts@;
            let piece = String::from_str(s.substring_char(start, i));
            parts.push(piece);
            assert(views(parts@) =~= views(before).push(s@.subrange(start as int, i as int)));
            start = i + 1;
            assert(s@.subrange(start as int, i + 1) =~= Seq::<char>::empty());
        } else {
            assert(s@.subrange(start as int, i + 1) =~= s@.subrange(start as int, i as int).push(c));
        }
        i = i + 1;
    }
    assert(s@.subrange(0, n as int) =~= s@);
    let ghost before = parts@;
    let last = String::from_str(s.substring_char(start, n));
    parts.push(last);
    assert(views(parts@) =~= views(before).push(s@.subrange(start as int, n as int)));
    proof {
        lemma_split_nonempty(s@, sep);
    }
    assert(views(parts@) =~= split_spec(s@, sep));
    parts
}

/// `s` with every occurrence of `pat` replaced by `with`, matching from left to
/// right without overlap, as `str::replace` does for a non-empty pattern.
pub open spec fn replace_spec(s: Seq<char>, pat: Seq<char>, with: Seq<char>) -> Seq<char>
    decreases s.len(),
{
    if pat.len() == 0 || s.len() < pat.len() {
        s
    } else if s.subrange(0, pat.len() as int) == pat {
        with + replace_spec(s.subrange(pat.len() as int, s.len() as int), pat, with)
    } else {
        seq![s[0]] + replace_spec(s.subrange(1, s.len() as int), pat, with)
    }
}

/// Replaces every occurrence of `pat` in `s` by `with`.
pub fn replace_all(s: &str, pat: &str, with: &str) -> (r: String)
    requires
        pat@.len() > 0,
    ensures
        r@ == replace_spec(s@, pat@, with@),
{
    let n = s.unicode_len();
    let m = pat.unicode_len();
    let pat_owned = String::from_str(pat);
    let mut out = String::new();
    let mut i: usize = 0;
    assert(s@.subrange(0, n as int) =~= s@);
    while m <= n - i
        invariant
            n == s@.len(),
            m == pat@.len(),
            m > 0,
            pat_owned@ == pat@,
            i <= n,
            out@ + replace_spec(s@.subrange(i as int, n as int), pat@, with@) == replace_spec(
                s@,
                pat@,
                with@,
            ),
        decreases n - i,
    {
        let ghost rest = s@.subrange(i as int, n as int);
        let ghost before = out@;
        let window = String::from_str(s.substring_char(i, i + m));
        assert(rest.subrange(0, m as int) =~= s@.subrange(i as int, i + m));
        if window == pat_owned {
            assert(rest.subrange(m as int, rest.len() as int) =~= s@.subrange(i + m, n as int));
            out.append(with);
            assert(out@ + replace_spec(s@.subrange(i + m, n as int), pat@, with@) =~= before + (
            with@ + replace_spec(s@.subrange(i + m, n as int), pat@, with@)));
            i = i + m;
        } else {
            assert(rest.subrange(1, rest.len() as int) =~= s@.subrange(i + 1, n as int));
            out.append(s.substring_char(i, i + 1));
            assert(s@.subrange(i as int, i + 1) =~= seq![rest[0]]);
            assert(out@ + replace_spec(s@.subrange(i + 1, n as int), pat@, with@) =~= before + (
            seq![rest[0]] + replace_spec(s@.subrange(i + 1, n as int), pat@, with@)));
            i = i + 1;
        }
    }
    let ghost before = out@;
    out.append(s.substring_char(i, n));
    assert(out@ =~= before + replace_spec(s@.subrange(i as int, n as int), pat@, with@));
    out
}

/// What `str::trim` leaves of a string: it depends on the characters alone.
pub uninterp spec fn trimmed(s: Seq<char>) -> Seq<char>;

/// Relies on `str::trim`: the string without its leading and trailing
/// whitespace, determined by the characters of the input alone.
#[verifier::external_body]
pub(crate) fn trim(s: &str) -> (r: String)
    ensures
        r@ == trimmed(s@),
{
    s.trim().to_string()
}

} // verus!

use vstd::prelude::*;

verus! {

/// A path as configured, with each backslash-escaped space (`\ `) read as a plain space. The
/// text is scanned left to right, and a replaced pair is not looked at again.
pub open spec fn unescaped(s: Seq<char>) -> Seq<char>
    decreases s.len(),
{
    if s.len() == 0 {
        s
    } else if s.len() >= 2 && s[0] == '\\' && s[1] == ' ' {
        seq![' '] + unescaped(s.skip(2))
    } else {
        seq![s[0]] + unescaped(s.skip(1))
    }
}

/// Turns every `\ ` of a configured path into a space.
pub fn unescape_path(raw: &str) -> (r: String)
    ensures
        r@ == unescaped(raw@),
{
    let n = raw.unicode_len();
    let mut out = String::new();
    let mut i: usize = 0;
    assert(raw@.skip(0) =~= raw@);
    while i < n
        invariant
            n == raw@.len(),
            0 <= i <= n,
            out@ + unescaped(raw@.skip(i as int)) == unescaped(raw@),
        decreases n - i,
    {
        let ghost rest = raw@.skip(i as int);
        if i + 1 < n && raw.get_char(i) == '\\' && raw.get_char(i + 1) == ' ' {
            proof {
                reveal_strlit(" ");
            }
            out.append(" ");
            assert(rest.skip(2) =~= raw@.skip(i + 2));
            assert(out@ + unescaped(raw@.skip(i + 2)) =~= unescaped(raw@));
            i = i + 2;
        } else {
            let piece = raw.substring_char(i, i + 1);
            out.append(piece);
            assert(rest.skip(1) =~= raw@.skip(i + 1));
            assert(piece@ =~= seq![rest[0]]);
            assert(out@ + unescaped(raw@.skip(i + 1)) =~= unescaped(raw@));
            i = i + 1;
        }
    }
    assert(raw@.skip(n as int) =~= Seq::<char>::empty());
    assert(out@ + unescaped(raw@.skip(i as int)) =~= out@);
    out
}

} // verus!

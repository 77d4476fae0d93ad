use vstd::prelude::*;
use vstd::string::StringExecFns;

use crate::index::strs;

verus! {

/// The strings joined with `sep` between each two.
pub open spec fn join(parts: Seq<Seq<char>>, sep: Seq<char>) -> Seq<char>
    decreases parts.len(),
{
    if parts.len() == 0 {
        Seq::empty()
    } else if parts.len() == 1 {
        parts[0]
    } else {
        join(parts.drop_last(), sep) + sep + parts.last()
    }
}

/// The strings joined with `sep` between each two.
pub fn join_strings(parts: &Vec<String>, sep: &str) -> (r: String)
    ensures
        r@ == join(strs(parts@), sep@),
{
    let mut out = String::new();
    let mut i: usize = 0;
    while i < parts.len()
        invariant
            i <= parts@.len(),
            out@ == join(strs(parts@.subrange(0, i as int)), sep@),
        decreases parts@.len() - i,
    {
        if i > 0 {
            out.append(sep);
        }
        out.append(parts[i].as_str());
        proof {
            let before = strs(parts@.subrange(0, i as int));
            let after = strs(parts@.subrange(0, i as int + 1));
            assert(after.drop_last() =~= before);
            assert(after.last() == parts@[i as int]@);
            if i == 0 {
                assert(before.len() == 0);
            }
        }
        i = i + 1;
    }
    assert(parts@.subrange(0, parts@.len() as int) =~= parts@);
    out
}

/// The names quoted and separated as `'a', 'b'`.
pub open spec fn quoted(parts: Seq<Seq<char>>) -> Seq<char> {
    "'"@ + join(parts, "', '"@) + "'"@
}

/// The names quoted and separated as `'a', 'b'`.
pub fn quote_strings(parts: &Vec<String>) -> (r: String)
    ensures
        r@ == quoted(strs(parts@)),
{
    let mut out = "'".to_owned();
    let joined = join_strings(parts, "', '");
    out.append(joined.as_str());
    out.append("'");
    out
}

/// A line `label: 'a', 'b'` on a new indented line, or nothing when there
/// is no name.
pub open spec fn key_line(label: Seq<char>, keys: Seq<Seq<char>>) -> Seq<char> {
    if keys.len() == 0 {
        Seq::empty()
    } else {
        "\n    "@ + label + ": "@ + quoted(keys)
    }
}

/// Appends `key_line(label, keys)`.
pub fn push_key_line(out: &mut String, label: &str, keys: &Vec<String>)
    ensures
        final(out)@ == old(out)@ + key_line(label@, strs(keys@)),
{
    if keys.len() > 0 {
        out.append("\n    ");
        out.append(label);
        out.append(": ");
        let q = quote_strings(keys);
        out.append(q.as_str());
    } else {
        assert(out@ =~= out@ + Seq::<char>::empty());
    }
}

} // verus!

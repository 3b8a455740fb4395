//! The parts of the status payload that the library reads as text.
use vstd::prelude::*;

verus! {

/// The model in use.
pub struct Model {
    pub display_name: Option<String>,
}

/// The reasoning effort chosen for the session.
pub struct Effort {
    pub level: Option<String>,
}

/// The workspace the session runs in.
pub struct Workspace {
    pub current_dir: Option<String>,
}

} // verus!

verus! {

/// `s` without its leading byte-order marks (`trim_start_matches('\u{feff}')`).
pub open spec fn without_marks(s: Seq<char>) -> Seq<char>
    decreases s.len(),
{
    if s.len() > 0 && s[0] == '\u{feff}' {
        without_marks(s.drop_first())
    } else {
        s
    }
}

/// The payload text with any leading UTF-8 byte-order marks taken off, which
/// some Windows tools put before the JSON.
pub fn without_bom(raw: &str) -> (r: String)
    ensures
        r@ == without_marks(raw@),
{
    let v = crate::text::chars_of(raw);
    let mut a: usize = 0;
    assert(v@.subrange(0, v@.len() as int) =~= v@);
    while a < v.len() && v[a] == '\u{feff}'
        invariant
            0 <= a <= v@.len(),
            without_marks(v@.subrange(a as int, v@.len() as int)) == without_marks(v@),
        decreases v@.len() - a,
    {
        assert(v@.subrange(a as int, v@.len() as int).drop_first() =~= v@.subrange(
            a + 1,
            v@.len() as int,
        ));
        a += 1;
    }
    crate::text::string_of(&v, a, v.len())
}

/// A payload read with a byte-order mark reads as the same payload without.
pub proof fn law_bom_is_ignored(s: Seq<char>)
    ensures
        without_marks(seq!['\u{feff}'] + s) == without_marks(s),
{
    assert((seq!['\u{feff}'] + s).drop_first() =~= s);
}

} // verus!

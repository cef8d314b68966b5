use unicode_segmentation::UnicodeSegmentation;
use unicode_width::UnicodeWidthStr;
use vstd::prelude::*;

verus! {

/// The extended grapheme clusters of a string, in order, as computed by
/// `unicode_segmentation`.
pub uninterp spec fn grapheme_clusters(s: Seq<char>) -> Seq<Seq<char>>;

/// The number of terminal columns a string occupies, as computed by
/// `unicode_width`.
pub uninterp spec fn display_width(s: Seq<char>) -> usize;

pub open spec fn strings_view(v: Seq<String>) -> Seq<Seq<char>> {
    v.map_values(|s: String| s@)
}

/// `UnicodeSegmentation::graphemes(s, true)`, collected. The contract only
/// names the result: which clusters the Unicode segmentation rules produce is
/// not restated here.
#[verifier::external_body]
pub(crate) fn graphemes(s: &str) -> (r: Vec<String>)
    ensures
        strings_view(r@) == grapheme_clusters(s@),
{
    s.graphemes(true).map(|g| g.to_string()).collect()
}

/// `UnicodeWidthStr::width(s)`. The contract only names the result: the
/// East Asian Width tables behind it are not restated here.
#[verifier::external_body]
pub(crate) fn width(s: &str) -> (r: usize)
    ensures
        r == display_width(s@),
{
    UnicodeWidthStr::width(s)
}

} // verus!

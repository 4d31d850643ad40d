//! The fonts text is drawn with: the system fonts found along a list of
//! paths, the first one primary and the others fallbacks for the characters it
//! lacks (Japanese text, for one).
//!
//! Reading the files is left to the caller; here their bytes are turned into
//! fonts by fontdue.
use vstd::prelude::*;

use crate::dom::{debug_quoted, debug_string};

verus! {

#[verifier::external_type_specification]
#[verifier::external_body]
pub struct ExFont(fontdue::Font);

/// Whether `fontdue::Font::from_bytes`, with the default settings, reads the
/// bytes as a font.
pub uninterp spec fn font_accepts(bytes: Seq<u8>) -> bool;

/// Calls `fontdue::Font::from_bytes` with `FontSettings::default()`; whether a
/// font comes back is named by `font_accepts`, and nothing more is said of the font.
#[verifier::external_body]
fn font_from_bytes(bytes: &[u8]) -> (r: Option<fontdue::Font>)
    ensures
        r is Some <==> font_accepts(bytes@),
{
    fontdue::Font::from_bytes(bytes, fontdue::FontSettings::default()).ok()
}

/// The font files looked for, in order.
pub open spec fn font_paths_spec() -> Seq<Seq<char>> {
    seq![
        "/usr/share/fonts/truetype/dejavu/DejaVuSans.ttf"@,
        "/usr/share/fonts/truetype/fonts-japanese-gothic.ttf"@,
        "/usr/share/fonts/opentype/ipafont-gothic/ipag.ttf"@,
        "/System/Library/Fonts/Supplemental/Arial Unicode.ttf"@,
        "/System/Library/Fonts/Supplemental/Arial.ttf"@,
        "C:\\Windows\\Fonts\\meiryo.ttc"@,
        "C:\\Windows\\Fonts\\arial.ttf"@,
    ]
}

/// The font files looked for, in order: those of Linux, then macOS, then Windows.
pub fn font_paths() -> (r: Vec<&'static str>)
    ensures
        r@.map_values(|p: &'static str| p@) == font_paths_spec(),
{
    let r: Vec<&'static str> = vec![
        // Linux
        "/usr/share/fonts/truetype/dejavu/DejaVuSans.ttf",
        "/usr/share/fonts/truetype/fonts-japanese-gothic.ttf",
        "/usr/share/fonts/opentype/ipafont-gothic/ipag.ttf",
        // macOS
        "/System/Library/Fonts/Supplemental/Arial Unicode.ttf",
        "/System/Library/Fonts/Supplemental/Arial.ttf",
        // Windows
        "C:\\Windows\\Fonts\\meiryo.ttc",
        "C:\\Windows\\Fonts\\arial.ttf",
    ];
    assert(r@.map_values(|p: &'static str| p@) =~= font_paths_spec());
    r
}

/// The paths as `{:?}` writes a list of strings: `["a", "b"]` without the brackets.
pub open spec fn quoted_list(ps: Seq<Seq<char>>) -> Seq<char>
    decreases ps.len(),
{
    if ps.len() == 0 {
        Seq::empty()
    } else if ps.len() == 1 {
        debug_quoted(ps[0])
    } else {
        quoted_list(ps.drop_last()) + ", "@ + debug_quoted(ps.last())
    }
}

/// The error when no font can be had: it names the paths that were tried.
pub open spec fn no_font_message() -> Seq<char> {
    "no font found; add one of this system's fonts to FONT_PATHS: ["@ + quoted_list(
        font_paths_spec(),
    ) + "]"@
}

/// The file `files[i]` was read and holds a font.
pub open spec fn accepted(files: Seq<Option<Vec<u8>>>, i: int) -> bool {
    files[i] matches Some(b) && font_accepts(b@)
}

/// The positions, among the first `n` files, of those that hold a font, in order.
pub open spec fn accepted_indices(files: Seq<Option<Vec<u8>>>, n: int) -> Seq<int>
    decreases n,
{
    if n <= 0 {
        Seq::empty()
    } else if accepted(files, n - 1) {
        accepted_indices(files, n - 1).push(n - 1)
    } else {
        accepted_indices(files, n - 1)
    }
}

proof fn lemma_accepted_indices(files: Seq<Option<Vec<u8>>>, n: int)
    requires
        0 <= n,
    ensures
        accepted_indices(files, n).len() == 0 <==> forall|i: int|
            0 <= i < n ==> !#[trigger] accepted(files, i),
    decreases n,
{
    if n > 0 {
        lemma_accepted_indices(files, n - 1);
    }
}

/// The fonts loaded, in the order of the files they were read from.
pub struct FontStack {
    fonts: Vec<fontdue::Font>,
    /// for each font, the position of the file it was read from
    origin: Ghost<Seq<int>>,
}

impl FontStack {
    /// For each font, in order, the position of the file it was read from.
    pub closed spec fn origin(&self) -> Seq<int> {
        self.origin@
    }

    pub closed spec fn wf(&self) -> bool {
        self.fonts@.len() == self.origin@.len()
    }

    /// The number of fonts.
    pub fn len(&self) -> (n: usize)
        requires
            self.wf(),
        ensures
            n == self.origin().len(),
    {
        self.fonts.len()
    }

    /// The `i`-th font; the first is the primary one, the others are fallbacks.
    pub fn font(&self, i: usize) -> (f: &fontdue::Font)
        requires
            self.wf(),
            i < self.origin().len(),
    {
        &self.fonts[i]
    }
}

/// Makes the fonts from the files read along `font_paths` (`None` for a file
/// that could not be read): each file that holds a font gives one, in file
/// order, the first the primary font. An error naming the paths if none does.
pub fn load_fonts(files: &[Option<Vec<u8>>]) -> (r: Result<FontStack, String>)
    ensures
        r is Err <==> forall|i: int| 0 <= i < files@.len() ==> !#[trigger] accepted(files@, i),
        r matches Ok(s) ==> s.wf() && s.origin() == accepted_indices(files@, files@.len() as int)
            && s.origin().len() > 0,
        r matches Err(m) ==> m@ == no_font_message(),
{
    let mut fonts: Vec<fontdue::Font> = Vec::new();
    let ghost mut origin: Seq<int> = Seq::empty();
    let mut i: usize = 0;
    while i < files.len()
        invariant
            i <= files@.len(),
            fonts@.len() == origin.len(),
            origin == accepted_indices(files@, i as int),
        decreases files@.len() - i,
    {
        match &files[i] {
            Some(bytes) => {
                match font_from_bytes(bytes.as_slice()) {
                    Some(font) => {
                        fonts.push(font);
                        proof {
                            origin = origin.push(i as int);
                        }
                    },
                    None => {},
                }
            },
            None => {},
        }
        i = i + 1;
    }
    proof {
        lemma_accepted_indices(files@, files@.len() as int);
    }
    if fonts.len() == 0 {
        return Err(no_font_text());
    }
    Ok(FontStack { fonts, origin: Ghost(origin) })
}

fn no_font_text() -> (r: String)
    ensures
        r@ == no_font_message(),
{
    let paths = font_paths();
    let mut out = "no font found; add one of this system's fonts to FONT_PATHS: [".to_owned();
    let ghost ps = font_paths_spec();
    let ghost start = out@;
    let mut i: usize = 0;
    while i < paths.len()
        invariant
            i <= paths@.len(),
            paths@.map_values(|p: &'static str| p@) == ps,
            ps == font_paths_spec(),
            out@ == start + quoted_list(ps.take(i as int)),
        decreases paths@.len() - i,
    {
        let ghost before = out@;
        if i > 0 {
            out.append(", ");
        }
        let q = debug_string(&paths[i].to_owned());
        assert(paths@[i as int]@ == ps[i as int]);
        out.append(q.as_str());
        proof {
            let t = ps.take(i + 1);
            assert(t.drop_last() =~= ps.take(i as int));
            assert(t.last() == ps[i as int]);
            if i == 0 {
                assert(ps.take(0) =~= Seq::<Seq<char>>::empty());
                assert(out@ =~= start + quoted_list(t));
            } else {
                assert(out@ =~= start + quoted_list(t));
            }
        }
        i = i + 1;
    }
    out.append("]");
    assert(ps.take(ps.len() as int) =~= ps);
    out
}

} // verus!

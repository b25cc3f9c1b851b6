//! The text that shimmers while a scan runs: a bright band sweeps over it.
use vstd::prelude::*;

use crate::text::{chars_of, string_of};

verus! {

/// A color as red, green and blue.
#[derive(Clone, Copy, Debug, PartialEq, Eq, Structural)]
pub struct Rgb {
    pub r: u8,
    pub g: u8,
    pub b: u8,
}

/// The colors that a character passes through as the band sweeps over it.
#[derive(Clone, Copy, Debug, PartialEq, Eq, Structural)]
pub struct ShimmerPalette {
    /// Outside the band.
    pub low: Rgb,
    /// At its edges.
    pub mid: Rgb,
    /// At its crest.
    pub high: Rgb,
    /// Whether the crest is bold.
    pub bold_crest: bool,
}

/// Takes a color apart that is written as one number.
pub fn rgb(hex: u32) -> (c: Rgb)
    ensures
        c == (Rgb {
            r: (hex as int / 0x1_0000 % 0x100) as u8,
            g: (hex as int / 0x100 % 0x100) as u8,
            b: (hex as int % 0x100) as u8,
        }),
{
    Rgb {
        r: (hex / 0x1_0000 % 0x100) as u8,
        g: (hex / 0x100 % 0x100) as u8,
        b: (hex % 0x100) as u8,
    }
}

/// The palette that is used where none is asked for: grays with a blue crest.
pub open spec fn default_colors() -> ShimmerPalette {
    ShimmerPalette {
        low: Rgb { r: 0x5f, g: 0x66, b: 0x73 },
        mid: Rgb { r: 0x77, g: 0x7d, b: 0x88 },
        high: Rgb { r: 0x58, g: 0xa6, b: 0xff },
        bold_crest: true,
    }
}

/// The palette that is used where none is asked for.
pub fn default_palette() -> (r: ShimmerPalette)
    ensures
        r == default_colors(),
{
    ShimmerPalette {
        low: rgb(0x5f_6673),
        mid: rgb(0x77_7d88),
        high: rgb(0x58_a6ff),
        bold_crest: true,
    }
}

/// Where a character stands with respect to the band.
#[derive(Clone, Copy, Debug, PartialEq, Eq, Structural)]
pub enum Tier {
    Low,
    Mid,
    High,
}

/// How a stretch of text is drawn.
#[derive(Clone, Copy, Debug, PartialEq, Eq, Structural)]
pub struct ShimmerStyle {
    pub color: Rgb,
    pub bold: bool,
}

/// How a tier is drawn.
pub open spec fn tier_style(tier: Tier, palette: ShimmerPalette) -> ShimmerStyle {
    ShimmerStyle {
        color: match tier {
            Tier::Low => palette.low,
            Tier::Mid => palette.mid,
            Tier::High => palette.high,
        },
        bold: tier == Tier::High && palette.bold_crest,
    }
}

/// Picks how a tier is drawn.
pub fn style_for(tier: Tier, palette: &ShimmerPalette) -> (r: ShimmerStyle)
    ensures
        r == tier_style(tier, *palette),
{
    match tier {
        Tier::Low => ShimmerStyle { color: palette.low, bold: false },
        Tier::Mid => ShimmerStyle { color: palette.mid, bold: false },
        Tier::High => ShimmerStyle { color: palette.high, bold: palette.bold_crest },
    }
}

/// A stretch of text that is drawn in one style.
#[derive(Debug)]
pub struct Stretch {
    pub text: String,
    pub style: ShimmerStyle,
}

/// What a `Stretch` says.
#[verifier::ext_equal]
pub struct StretchView {
    pub text: Seq<char>,
    pub style: ShimmerStyle,
}

impl View for Stretch {
    type V = StretchView;

    open spec fn view(&self) -> StretchView {
        StretchView { text: self.text@, style: self.style }
    }
}

/// What a list of stretches says.
pub open spec fn stretches_view(v: Seq<Stretch>) -> Seq<StretchView> {
    v.map_values(|s: Stretch| s@)
}

/// A run of characters of one tier.
#[verifier::ext_equal]
pub struct Run {
    pub text: Seq<char>,
    pub tier: Tier,
}

/// The longest runs of characters of one tier, in order.
pub open spec fn runs(text: Seq<char>, tiers: Seq<Tier>) -> Seq<Run>
    decreases text.len(),
{
    if text.len() == 0 || tiers.len() < text.len() {
        Seq::empty()
    } else {
        let before = runs(text.drop_last(), tiers);
        let tier = tiers[text.len() - 1];
        if before.len() > 0 && before.last().tier == tier {
            before.drop_last().push(Run { text: before.last().text.push(text.last()), tier })
        } else {
            before.push(Run { text: seq![text.last()], tier })
        }
    }
}

/// The runs of a text as they are drawn.
pub open spec fn drawn(text: Seq<char>, tiers: Seq<Tier>, palette: ShimmerPalette) -> Seq<
    StretchView,
> {
    runs(text, tiers).map_values(
        |r: Run| StretchView { text: r.text, style: tier_style(r.tier, palette) },
    )
}

/// The stretch of a run.
fn stretch_of(run: &Vec<char>, tier: Tier, palette: &ShimmerPalette) -> (r: Stretch)
    ensures
        r@ == (StretchView { text: run@, style: tier_style(tier, *palette) }),
{
    Stretch { text: string_of(run.as_slice()), style: style_for(tier, palette) }
}

/// The palette that is asked for, or else the default one.
pub open spec fn palette_or_default(palette: Option<&ShimmerPalette>) -> ShimmerPalette {
    match palette {
        Some(p) => *p,
        None => default_colors(),
    }
}

/// Draws a text, given the tier of each character. Neighbors of one tier are
/// drawn together.
pub fn shimmer_line(
    text: &str,
    tiers: &Vec<Tier>,
    palette: Option<&ShimmerPalette>,
) -> (r: Vec<Stretch>)
    requires
        tiers@.len() == text@.len(),
    ensures
        stretches_view(r@) == drawn(text@, tiers@, palette_or_default(palette)),
{
    let chosen: ShimmerPalette = match palette {
        Some(p) => *p,
        None => default_palette(),
    };
    let palette = &chosen;
    let cs = chars_of(text);
    let ghost draw = |r: Run| StretchView { text: r.text, style: tier_style(r.tier, *palette) };
    let mut out: Vec<Stretch> = Vec::new();
    let mut run: Vec<char> = Vec::new();
    let mut run_tier: Tier = Tier::Low;
    assert(cs@.take(0) =~= Seq::<char>::empty());
    for i in 0..cs.len()
        invariant
            cs@ == text@,
            tiers@.len() == text@.len(),
            draw == (|r: Run| StretchView { text: r.text, style: tier_style(r.tier, *palette) }),
            i == 0 ==> run@.len() == 0 && out@.len() == 0 && runs(cs@.take(0), tiers@).len() == 0,
            i > 0 ==> {
                let all = runs(cs@.take(i as int), tiers@);
                &&& all.len() > 0
                &&& all.last() == (Run { text: run@, tier: run_tier })
                &&& stretches_view(out@) == all.drop_last().map_values(draw)
            },
    {
        let ghost before = runs(cs@.take(i as int), tiers@);
        let ghost after = runs(cs@.take(i + 1), tiers@);
        assert(cs@.take(i + 1).drop_last() =~= cs@.take(i as int));
        assert(cs@.take(i + 1).last() == cs@[i as int]);
        let tier: Tier = tiers[i];
        let ghost old_out = out@;
        if i > 0 && tier != run_tier {
            out.push(stretch_of(&run, run_tier, palette));
            assert(stretches_view(out@) =~= stretches_view(old_out).push(draw(before.last())));
            assert(before.drop_last().push(before.last()) =~= before);
            assert(stretches_view(out@) =~= before.map_values(draw));
            run = Vec::new();
        }
        run_tier = tier;
        run.push(cs[i]);
        proof {
            if i == 0 {
                assert(stretches_view(out@) =~= Seq::<StretchView>::empty());
                assert(run@ =~= seq![cs@[i as int]]);
                assert(after.drop_last() =~= Seq::<Run>::empty());
                assert(after.drop_last().map_values(draw) =~= Seq::<StretchView>::empty());
            } else if before.last().tier == tier {
                assert(after.drop_last() =~= before.drop_last());
            } else {
                assert(run@ =~= seq![cs@[i as int]]);
                assert(after.drop_last() =~= before);
            }
        }
    }
    assert(cs@.take(cs@.len() as int) =~= cs@);
    let ghost all = runs(cs@, tiers@);
    if cs.len() > 0 {
        let ghost old_out = out@;
        out.push(stretch_of(&run, run_tier, palette));
        assert(stretches_view(out@) =~= stretches_view(old_out).push(draw(all.last())));
        assert(all.drop_last().push(all.last()) =~= all);
        assert(stretches_view(out@) =~= all.map_values(draw));
    } else {
        assert(all.map_values(draw) =~= Seq::<StretchView>::empty());
        assert(stretches_view(out@) =~= Seq::<StretchView>::empty());
    }
    out
}

/// A text that shimmers, and for how long it has: nanoseconds since the scan
/// started.
#[derive(Debug)]
pub struct Loading<'a> {
    text: &'a str,
    elapsed: u128,
}

impl<'a> Loading<'a> {
    /// The text that is drawn.
    pub closed spec fn spec_text(self) -> Seq<char> {
        self.text@
    }

    /// For how long it has shimmered.
    pub closed spec fn spec_elapsed(self) -> u128 {
        self.elapsed
    }

    /// A text that has shimmered for the given time.
    pub fn new(text: &'a str, elapsed: u128) -> (r: Loading<'a>)
        ensures
            r.spec_text() == text@,
            r.spec_elapsed() == elapsed,
    {
        Loading { text, elapsed }
    }

    /// For how long the text has shimmered.
    pub fn elapsed(&self) -> (r: u128)
        ensures
            r == self.spec_elapsed(),
    {
        self.elapsed
    }

    /// How many characters the text has.
    pub fn len(&self) -> (n: usize)
        ensures
            n == self.spec_text().len(),
    {
        chars_of(self.text).len()
    }

    /// Draws the text by default colors, given the tier of each character.
    pub fn line(&self, tiers: &Vec<Tier>) -> (r: Vec<Stretch>)
        requires
            tiers@.len() == self.spec_text().len(),
        ensures
            stretches_view(r@) == drawn(self.spec_text(), tiers@, default_colors()),
    {
        shimmer_line(self.text, tiers, None)
    }
}

/// The characters of a list of runs, one after the other.
pub open spec fn joined_runs(rs: Seq<Run>) -> Seq<char>
    decreases rs.len(),
{
    if rs.len() == 0 {
        Seq::empty()
    } else {
        joined_runs(rs.drop_last()) + rs.last().text
    }
}

/// Whether no run has the tier of the one before it.
pub open spec fn alternating(rs: Seq<Run>) -> bool {
    forall|i: int, j: int|
        #![trigger rs[i], rs[j]]
        0 <= i && j == i + 1 && j < rs.len() ==> rs[i].tier != rs[j].tier
}

/// Law: the runs hold the text unchanged, no run is empty, neighbors differ in
/// tier, and there are no more runs than characters.
pub proof fn law_runs(text: Seq<char>, tiers: Seq<Tier>)
    requires
        tiers.len() >= text.len(),
    ensures
        joined_runs(runs(text, tiers)) == text,
        runs(text, tiers).len() <= text.len(),
        text.len() > 0 ==> runs(text, tiers).len() > 0,
        forall|i: int|
            0 <= i < runs(text, tiers).len() ==> (#[trigger] runs(text, tiers)[i]).text.len() > 0,
        alternating(runs(text, tiers)),
    decreases text.len(),
{
    if text.len() > 0 {
        let d = text.drop_last();
        law_runs(d, tiers);
        let before = runs(d, tiers);
        let after = runs(text, tiers);
        let tier = tiers[text.len() - 1];
        assert(d.push(text.last()) =~= text);
        if before.len() > 0 && before.last().tier == tier {
            assert(after.drop_last() =~= before.drop_last());
            assert(joined_runs(after) =~= joined_runs(before).push(text.last()));
            assert forall|i: int, j: int|
                #![trigger after[i], after[j]]
                0 <= i && j == i + 1 && j < after.len() implies after[i].tier != after[j].tier by {
                assert(before[i].tier == after[i].tier);
                assert(before[j].tier == after[j].tier);
            }
        } else {
            assert(after.drop_last() =~= before);
            assert(joined_runs(after) =~= joined_runs(before) + seq![text.last()]);
            assert forall|i: int, j: int|
                #![trigger after[i], after[j]]
                0 <= i && j == i + 1 && j < after.len() implies after[i].tier != after[j].tier by {
                assert(before[i].tier == after[i].tier);
                if j < before.len() {
                    assert(before[j].tier == after[j].tier);
                }
            }
        }
    } else {
        assert(text =~= Seq::<char>::empty());
    }
}

/// The characters of a list of stretches, each with how it is drawn.
pub open spec fn styled(ss: Seq<StretchView>) -> Seq<(char, ShimmerStyle)>
    decreases ss.len(),
{
    if ss.len() == 0 {
        Seq::empty()
    } else {
        let last = ss.last();
        styled(ss.drop_last()) + last.text.map_values(|c: char| (c, last.style))
    }
}

/// Law: every character is drawn, in its place and by its own tier: in the color of
/// the tier, and bold exactly at a crest that is to be bold.
pub proof fn law_drawn(text: Seq<char>, tiers: Seq<Tier>, palette: ShimmerPalette)
    requires
        tiers.len() >= text.len(),
    ensures
        ({
            let d = styled(drawn(text, tiers, palette));
            &&& d.len() == text.len()
            &&& forall|i: int|
                0 <= i < text.len() ==> {
                    &&& (#[trigger] d[i]).0 == text[i]
                    &&& tiers[i] is Low ==> d[i].1.color == palette.low && !d[i].1.bold
                    &&& tiers[i] is Mid ==> d[i].1.color == palette.mid && !d[i].1.bold
                    &&& tiers[i] is High ==> d[i].1.color == palette.high && d[i].1.bold
                        == palette.bold_crest
                }
        }),
    decreases text.len(),
{
    let draw = |r: Run| StretchView { text: r.text, style: tier_style(r.tier, palette) };
    if text.len() == 0 {
        assert(drawn(text, tiers, palette) =~= Seq::<StretchView>::empty());
    } else {
        let cut = text.drop_last();
        law_drawn(cut, tiers, palette);
        let before = runs(cut, tiers);
        let after = runs(text, tiers);
        let db = drawn(cut, tiers, palette);
        let da = drawn(text, tiers, palette);
        let tier = tiers[text.len() - 1];
        let style = tier_style(tier, palette);
        let c = text.last();
        if before.len() > 0 && before.last().tier == tier {
            assert(da.drop_last() =~= db.drop_last());
            assert(da.last() == draw(after.last()));
            assert(db.last() == draw(before.last()));
            let f = |x: char| (x, style);
            assert(db.last().text.push(c).map_values(f) =~= db.last().text.map_values(f).push(
                (c, style),
            ));
            assert(styled(da) =~= styled(db).push((c, style)));
        } else {
            assert(da.drop_last() =~= db);
            assert(da.last() == draw(after.last()));
            let f = |x: char| (x, style);
            assert(seq![c].map_values(f) =~= seq![(c, style)]);
            assert(styled(da) =~= styled(db).push((c, style)));
        }
        let d = styled(da);
        assert forall|i: int| 0 <= i < text.len() implies {
            &&& (#[trigger] d[i]).0 == text[i]
            &&& tiers[i] is Low ==> d[i].1.color == palette.low && !d[i].1.bold
            &&& tiers[i] is Mid ==> d[i].1.color == palette.mid && !d[i].1.bold
            &&& tiers[i] is High ==> d[i].1.color == palette.high && d[i].1.bold
                == palette.bold_crest
        } by {
            if i < cut.len() {
                assert(d[i] == styled(db)[i]);
                assert(cut[i] == text[i]);
            } else {
                assert(d[i] == (c, style));
            }
        }
    }
}

/// Law: the colors that are used where none are asked for are three, two grays and
/// a bold blue; those that are asked for are used as they are.
pub proof fn law_palette(p: &ShimmerPalette)
    ensures
        palette_or_default(Some(p)) == *p,
        ({
            let d = palette_or_default(None);
            &&& d.low == (Rgb { r: 95, g: 102, b: 115 })
            &&& d.mid == (Rgb { r: 119, g: 125, b: 136 })
            &&& d.high == (Rgb { r: 88, g: 166, b: 255 })
            &&& d.bold_crest
        }),
{
}

} // verus!

use cargo_shepherd::ui::loading::{
    default_palette, rgb, shimmer_line, Loading, Rgb, ShimmerPalette, ShimmerStyle, Tier,
};

/// How bright the band makes a character: a cosine bump that sweeps from left
/// to right.
fn intensity(seconds: f32, index: usize, len: usize) -> f32 {
    let period = len as f32 + 20.0;
    let pos = (seconds * 30.0) % period;
    let dist = (index as f32 + 10.0 - pos).abs();
    if dist >= 8.0 {
        return 0.0;
    }
    0.5 * (1.0 + (std::f32::consts::PI * dist / 8.0).cos())
}

fn tiers(text: &str, seconds: f32) -> Vec<Tier> {
    let len = text.chars().count();
    (0..len)
        .map(|i| {
            let x = intensity(seconds, i, len);
            if x >= 0.65 {
                Tier::High
            } else if x >= 0.22 {
                Tier::Mid
            } else {
                Tier::Low
            }
        })
        .collect()
}

#[test]
fn line_preserves_text_and_coalesces_runs() {
    let text = "Working…";
    let line = shimmer_line(text, &tiers(text, 0.5), None);
    let rebuilt: String = line.iter().map(|s| s.text.as_str()).collect();
    assert_eq!(rebuilt, "Working…");
    assert!(line.len() <= 8);
}

#[test]
fn crest_span_is_bold_blue() {
    let line = shimmer_line("abcd", &tiers("abcd", 10.0 / 30.0), None);
    let blue = ShimmerStyle { color: Rgb { r: 0x58, g: 0xa6, b: 0xff }, bold: true };
    assert!(line.iter().any(|s| s.style == blue));
}

#[test]
fn empty_text_is_empty_line() {
    let line = shimmer_line("", &tiers("", 0.0), None);
    let width: usize = line.iter().map(|s| s.text.chars().count()).sum();
    assert_eq!(width, 0);
}

#[test]
fn custom_palette_replaces_crest() {
    let palette = ShimmerPalette {
        low: Rgb { r: 0, g: 0, b: 0 },
        mid: Rgb { r: 1, g: 1, b: 1 },
        high: Rgb { r: 2, g: 3, b: 4 },
        bold_crest: false,
    };
    let line = shimmer_line("abcd", &tiers("abcd", 10.0 / 30.0), Some(&palette));
    let crest = ShimmerStyle { color: Rgb { r: 2, g: 3, b: 4 }, bold: false };
    assert!(line.iter().any(|s| s.style == crest));
}

#[test]
fn neighbors_of_one_tier_are_drawn_together() {
    let line = shimmer_line("abcdef", &vec![Tier::Low, Tier::Low, Tier::Mid, Tier::High, Tier::High, Tier::Low], Some(&default_palette()));
    let texts: Vec<&str> = line.iter().map(|s| s.text.as_str()).collect();
    assert_eq!(texts, vec!["ab", "c", "de", "f"]);
    assert_eq!(line[1].style.color, rgb(0x777d88));
    assert!(!line[1].style.bold);
    assert!(line[2].style.bold);
}

#[test]
fn loading_text_is_drawn_by_default_colors() {
    let loading = Loading::new("ab", 5);
    assert_eq!(loading.elapsed(), 5);
    assert_eq!(loading.len(), 2);
    let line = loading.line(&vec![Tier::Low, Tier::Low]);
    assert_eq!(line.len(), 1);
    assert_eq!(line[0].style.color, Rgb { r: 0x5f, g: 0x66, b: 0x73 });
}

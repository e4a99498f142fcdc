use ranim::morph::{Alignable, Morph, MorphAnim};
use ranim::typst_cache::{typst_svg, TypstLruCache};
use ranim::typst_text::{
    align_by_diff, diff_fits_lengths, glyph_chars, inline_code_source, multiline_code_source,
    DiffChunk, DiffOp, Glyph, TypstText,
};

/// A glyph with a tag, a number of points and whether it was shrunk.
#[derive(Clone, Debug, PartialEq)]
struct G {
    tag: char,
    pts: usize,
    shrunk: bool,
}

fn g(tag: char, pts: usize) -> G {
    G { tag, pts, shrunk: false }
}

impl Alignable for G {
    fn aligned_with(self, other: Self) -> bool {
        self.pts == other.pts
    }

    fn aligns_to(self, other: Self, new_self: Self, new_other: Self) -> bool {
        let m = self.pts.max(other.pts);
        new_self == G { pts: m, ..self } && new_other == G { pts: m, ..other }
    }

    fn is_aligned(&self, other: &Self) -> bool {
        self.pts == other.pts
    }

    fn align_with(&mut self, other: &mut Self) {
        let m = self.pts.max(other.pts);
        self.pts = m;
        other.pts = m;
    }
}

impl Glyph for G {
    fn shrunk(self) -> Self {
        G { shrunk: true, ..self }
    }

    fn shrink(&mut self) {
        self.shrunk = true;
    }
}

fn chunk(op: DiffOp, size: usize) -> DiffChunk {
    DiffChunk { op, size }
}

#[test]
fn glyph_chars_drop_layout() {
    assert_eq!(glyph_chars("a b\n\tc\r"), "abc");
    assert_eq!(glyph_chars("  "), "");
}

#[test]
fn code_sources() {
    assert_eq!(inline_code_source("x + 1"), "`x + 1`");
    assert_eq!(multiline_code_source("fn main() {}\n", Some("rust")), "```rust\nfn main() {}\n```");
    assert_eq!(multiline_code_source("a", None), "```\na```");
}

#[test]
fn diff_lengths_are_checked() {
    let d = vec![chunk(DiffOp::Equal, 2), chunk(DiffOp::Delete, 1), chunk(DiffOp::Insert, 3)];
    assert!(diff_fits_lengths(&d, 3, 5));
    assert!(!diff_fits_lengths(&d, 3, 4));
    assert!(!diff_fits_lengths(&d, 2, 5));
    assert!(diff_fits_lengths(&vec![], 0, 0));
}

#[test]
fn align_by_diff_pairs_equal_runs_and_fills_changes() {
    let a = vec![g('a', 1), g('b', 2), g('x', 3)];
    let b = vec![g('a', 4), g('b', 2), g('y', 1), g('z', 1)];
    let d = vec![chunk(DiffOp::Equal, 2), chunk(DiffOp::Delete, 1), chunk(DiffOp::Insert, 2)];
    let (ra, rb) = align_by_diff(&a, &b, &d);
    assert_eq!(ra.len(), 4);
    assert_eq!(rb.len(), 4);
    for (x, y) in ra.iter().zip(rb.iter()) {
        assert_eq!(x.pts, y.pts);
    }
    assert_eq!(ra.iter().map(|x| x.tag).collect::<String>(), "abxx");
    assert_eq!(rb.iter().map(|x| x.tag).collect::<String>(), "abyz");
    assert_eq!(ra[0].pts, 4);
}

#[test]
fn changed_runs_of_different_lengths_are_resized_in_order() {
    let a = vec![g('p', 1), g('q', 1), g('r', 1), g('s', 1)];
    let b = vec![g('x', 2), g('y', 2)];
    let d = vec![chunk(DiffOp::Delete, 4), chunk(DiffOp::Insert, 2)];
    let (ra, rb) = align_by_diff(&a, &b, &d);
    assert_eq!(ra.iter().map(|x| x.tag).collect::<String>(), "pqrs");
    assert_eq!(rb.iter().map(|x| x.tag).collect::<String>(), "xxyy");
    assert!(ra.iter().zip(rb.iter()).all(|(x, y)| x.pts == 2 && y.pts == 2));
}

#[test]
fn align_by_diff_shrinks_what_appears() {
    let a = vec![g('a', 1)];
    let b = vec![g('a', 1), g('b', 1)];
    let d = vec![chunk(DiffOp::Equal, 1), chunk(DiffOp::Insert, 1)];
    let (ra, rb) = align_by_diff(&a, &b, &d);
    assert_eq!(ra, vec![g('a', 1), G { tag: 'b', pts: 1, shrunk: true }]);
    assert_eq!(rb, b);
}

#[test]
fn typst_texts_align_along_their_diff() {
    let mut t1 = TypstText::new("a b", vec![g('a', 1), g('b', 1)]);
    let mut t2 = TypstText::new("ab c", vec![g('a', 2), g('b', 1), g('c', 1)]);
    t1.align_with(&mut t2);
    assert!(t1.is_aligned(&t2));
    let v1 = t1.into_glyphs();
    let v2 = t2.into_glyphs();
    assert_eq!(v1.len(), 3);
    assert_eq!(v2.len(), 3);
    assert_eq!(v1[2], G { tag: 'c', pts: 1, shrunk: true });
    assert_eq!(v1[0].pts, 2);
}

#[test]
fn align_along_follows_a_fitting_diff() {
    let mut t1 = TypstText::new("ab", vec![g('a', 1), g('b', 1)]);
    let mut t2 = TypstText::new("abc", vec![g('a', 1), g('b', 1), g('c', 2)]);
    let d = vec![chunk(DiffOp::Equal, 2), chunk(DiffOp::Insert, 1)];
    t1.align_along(&mut t2, Some(d));
    let v1 = t1.into_glyphs();
    let v2 = t2.into_glyphs();
    assert_eq!(v1, vec![g('a', 1), g('b', 1), G { tag: 'c', pts: 2, shrunk: true }]);
    assert_eq!(v2, vec![g('a', 1), g('b', 1), g('c', 2)]);
}

#[test]
fn align_along_takes_everything_as_one_run_without_a_fitting_diff() {
    let a = vec![g('a', 1), g('b', 1)];
    let b = vec![g('a', 1), g('b', 1), g('c', 1)];
    for diff in [None, Some(vec![chunk(DiffOp::Equal, 2)])] {
        let mut t1 = TypstText::new("ab", a.clone());
        let mut t2 = TypstText::new("abc", b.clone());
        t1.align_along(&mut t2, diff);
        let v1 = t1.into_glyphs();
        let v2 = t2.into_glyphs();
        // one changed run: "ab" resized to three glyphs in order, not paired by character
        assert_eq!(v1.iter().map(|x| x.tag).collect::<String>(), "aab");
        assert_eq!(v2, b);
    }
}

#[test]
fn typst_text_ab_aligns_with_abc() {
    let mut t1 = TypstText::new("ab", vec![g('a', 1), g('b', 1)]);
    let mut t2 = TypstText::new("abc", vec![g('a', 1), g('b', 1), g('c', 1)]);
    t1.align_with(&mut t2);
    assert!(t1.is_aligned(&t2));
    let v1 = t1.into_glyphs();
    assert_eq!(v1, vec![g('a', 1), g('b', 1), G { tag: 'c', pts: 1, shrunk: true }]);
}

#[test]
fn morph_keeps_ends_and_aligns_copies() {
    let src = g('a', 1);
    let dst = g('a', 5);
    let m = Morph::new(src.clone(), dst.clone());
    assert_eq!(m.src(), &src);
    assert_eq!(m.dst(), &dst);
    assert_eq!(m.aligned_src().pts, 5);
    assert_eq!(m.aligned_dst().pts, 5);

    let same = Morph::new(g('a', 2), g('b', 2));
    assert_eq!(same.aligned_src(), &g('a', 2));
    assert_eq!(same.aligned_dst(), &g('b', 2));
}

#[test]
fn morph_anims_leave_the_item_at_the_end() {
    let mut item = g('a', 1);
    let m = item.morph_to(g('b', 3));
    assert_eq!(item, g('b', 3));
    assert_eq!(m.src(), &g('a', 1));

    let mut item = g('c', 2);
    let m = item.morph_from(g('d', 7));
    assert_eq!(item, g('c', 2));
    assert_eq!(m.src(), &g('d', 7));
    assert_eq!(m.aligned_dst().pts, 7);

    let mut item = g('e', 1);
    let m = item.morph(|x| G { pts: x.pts + 4, ..x });
    assert_eq!(item, g('e', 5));
    assert_eq!(m.src(), &g('e', 1));
}

#[test]
fn typst_svg_compiles_each_source_once_while_cached() {
    let mut cache = TypstLruCache::new(2);
    let mut calls = 0;
    let a = typst_svg(&mut cache, "a", || {
        calls += 1;
        "<svg a>".to_string()
    });
    assert_eq!(a, "<svg a>");
    let again = typst_svg(&mut cache, "a", || {
        calls += 1;
        "other".to_string()
    });
    assert_eq!(again, "<svg a>");
    assert_eq!(calls, 1);
    typst_svg(&mut cache, "b", || "<svg b>".to_string());
    typst_svg(&mut cache, "c", || "<svg c>".to_string());
    // "a" was the least recently used entry and has left the cache
    let recompiled = typst_svg(&mut cache, "a", || {
        calls += 1;
        "<svg a2>".to_string()
    });
    assert_eq!(recompiled, "<svg a2>");
    assert_eq!(calls, 2);
}

#[test]
fn typst_svg_evicts_the_least_recently_used_source() {
    let mut cache = TypstLruCache::new(2);
    typst_svg(&mut cache, "a", || "<svg a>".to_string());
    typst_svg(&mut cache, "b", || "<svg b>".to_string());
    // using "a" again makes "b" the least recently used
    assert_eq!(typst_svg(&mut cache, "a", || "unused".to_string()), "<svg a>");
    typst_svg(&mut cache, "c", || "<svg c>".to_string());
    assert_eq!(typst_svg(&mut cache, "a", || "recompiled".to_string()), "<svg a>");
    assert_eq!(typst_svg(&mut cache, "b", || "<svg b2>".to_string()), "<svg b2>");
}

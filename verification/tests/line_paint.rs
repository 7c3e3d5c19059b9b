use structured_log_viewer::line_paint::{
    clip_to_piece, line_tokens, line_washes, overlay_washes, piece_tokens, split_underline, underline_span,
    RunStyle,
};
use structured_log_viewer::msbuild::{HighlightKind, Token, TokenKind};

fn plain(kind: HighlightKind) -> RunStyle {
    RunStyle { kind: Some(kind), underlined: false, washed: false }
}

fn lined(kind: HighlightKind) -> RunStyle {
    RunStyle { kind: Some(kind), underlined: true, washed: false }
}

#[test]
fn underline_is_made_relative_and_clamped() {
    assert_eq!(underline_span(12..15, 10, 20), 2..5);
    assert_eq!(underline_span(5..15, 10, 20), 0..5);
    assert_eq!(underline_span(25..40, 10, 20), 15..20);
    assert_eq!(underline_span(35..40, 10, 20), 20..20);
}

#[test]
fn runs_are_cut_around_the_underline() {
    let runs = vec![(0..4, HighlightKind::Punctuation), (4..10, HighlightKind::ElementName), (10..12, HighlightKind::Text)];
    let out = split_underline(&runs, Some(6..11));
    assert_eq!(
        out,
        vec![
            (0..4, plain(HighlightKind::Punctuation)),
            (4..6, plain(HighlightKind::ElementName)),
            (6..10, lined(HighlightKind::ElementName)),
            (10..11, lined(HighlightKind::Text)),
            (11..12, plain(HighlightKind::Text)),
        ]
    );
    let same = split_underline(&runs, None);
    assert_eq!(same.len(), 3);
    assert_eq!(same[1], (4..10, plain(HighlightKind::ElementName)));
    // An underline over a whole run leaves no empty pieces.
    let whole = split_underline(&runs, Some(4..10));
    assert_eq!(whole[1], (4..10, lined(HighlightKind::ElementName)));
    assert_eq!(whole.len(), 3);
}

#[test]
fn find_hits_on_the_line_are_washed_except_the_current_one() {
    let matches = vec![0..3, 8..11, 12..14, 15..18, 30..33];
    // The line "abcdef" starts at byte 10.
    let w = line_washes(&matches, Some(12..14), 10, "abcdef");
    assert_eq!(w, vec![0..1, 5..6]);
    let w = line_washes(&matches, None, 10, "abcdef");
    assert_eq!(w, vec![0..1, 2..4, 5..6]);
    assert_eq!(line_washes(&matches, None, 40, "xyz"), Vec::<std::ops::Range<usize>>::new());
}

#[test]
fn washes_never_split_a_character() {
    // "é" is two bytes; a hit ending inside it is dropped.
    let w = line_washes(&[0..1, 1..3], None, 0, "aé");
    assert_eq!(w, vec![0..1, 1..3]);
    let w = line_washes(&[0..2], None, 0, "aé");
    assert!(w.is_empty());
}

#[test]
fn washes_are_laid_over_runs_at_every_edge() {
    let runs = vec![(0..4, plain(HighlightKind::Punctuation)), (4..10, plain(HighlightKind::ElementName))];
    let out = overlay_washes(&runs, &[2..6], 12);
    let washed = |k: HighlightKind| RunStyle { kind: Some(k), underlined: false, washed: true };
    assert_eq!(
        out,
        vec![
            (0..2, plain(HighlightKind::Punctuation)),
            (2..4, washed(HighlightKind::Punctuation)),
            (4..6, washed(HighlightKind::ElementName)),
            (6..10, plain(HighlightKind::ElementName)),
            (10..12, RunStyle { kind: None, underlined: false, washed: false }),
        ]
    );
    assert!(overlay_washes(&[], &[], 0).is_empty());
}

#[test]
fn pieces_take_their_share_of_the_styles() {
    let runs = vec![(0..4, plain(HighlightKind::Punctuation)), (4..10, plain(HighlightKind::ElementName))];
    assert_eq!(
        clip_to_piece(&runs, 2..6),
        vec![(0..2, plain(HighlightKind::Punctuation)), (2..4, plain(HighlightKind::ElementName))]
    );
    assert!(clip_to_piece(&runs, 10..12).is_empty());
}

#[test]
fn tokens_are_shared_out_to_the_pieces_that_hold_them() {
    let t = |s: usize, e: usize| Token { kind: TokenKind::Property, name: "P".to_string(), range: s..e, line: 1 };
    let tokens = vec![t(2, 5), t(12, 15), t(18, 22), t(20, 25), t(26, 30)];
    let on_line = line_tokens(&tokens, 10, 12);
    assert_eq!(on_line.len(), 2);
    assert_eq!(on_line[0].0, 2..5);
    assert_eq!(on_line[1].0, 8..12);
    let (ts, rs) = piece_tokens(&on_line, 0..6);
    assert_eq!(ts.len(), 1);
    assert_eq!(ts[0].range, 12..15);
    assert_eq!(rs, vec![2..5]);
    let (ts, rs) = piece_tokens(&on_line, 6..12);
    assert_eq!(ts.len(), 1);
    assert_eq!(ts[0].range, 18..22);
    assert_eq!(rs, vec![2..6]);
    let (ts, rs) = piece_tokens(&on_line, 3..9);
    assert!(ts.is_empty() && rs.is_empty());
}

//! The match finder.

use noflate::lz77::{Lz77Code, MatchFinder};

fn symbols(input: &[u8]) -> Vec<Lz77Code> {
    let mut matcher = MatchFinder::new();
    let mut symbols = Vec::new();
    matcher.fill_symbols(input, &mut symbols);
    symbols
}

#[test]
fn short_input_all_literals() {
    let input = b"ab";
    assert_eq!(
        symbols(input),
        vec![Lz77Code::Literal(b'a'), Lz77Code::Literal(b'b')]
    );
}

#[test]
fn repeated_run_matches() {
    let input = b"aaaaa";
    let syms = symbols(input);
    assert!(matches!(syms.first(), Some(Lz77Code::Literal(b'a'))));
    assert!(
        syms.iter()
            .any(|c| matches!(c, Lz77Code::Pointer { distance: 1, .. }))
    );
}

#[test]
fn distant_match() {
    let input = b"abcdefghijk_____abcdefghijk";
    let syms = symbols(input);
    assert!(
        syms.iter()
            .any(|c| matches!(c, Lz77Code::Pointer { length: 11, .. }))
    );
}

#[test]
fn matcher_reuses_tables_across_calls() {
    let mut m = MatchFinder::new();
    let mut syms = Vec::new();
    for _ in 0..3 {
        m.fill_symbols(b"banana banana", &mut syms);
        assert!(syms.iter().any(|c| matches!(c, Lz77Code::Pointer { .. })));
    }
}

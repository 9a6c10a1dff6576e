use rsearch::app::{after_reindex, after_search, handle_key, next_selection, snippet_from, Action, Key, Mode};
use rsearch::bm25::{term_matches, LivePosting};
use rsearch::index::{DocMeta, Index, Posting};
use rsearch::storage::{index_path, BuildStats, Refresh};
use rsearch::tokenizer::{tokenize, truncate_chars};
use rsearch::walker::{is_texty_extension, sample_looks_textual, FoundFile};

fn toks(words: &[&str]) -> Vec<String> {
    words.iter().map(|w| w.to_string()).collect()
}

#[test]
fn tokenize_lowercases_and_splits() {
    assert_eq!(tokenize("Hello, World! foo_bar 42x"), toks(&["hello", "world", "foo", "bar", "42x"]));
}

#[test]
fn tokenize_empty_and_separators_only() {
    assert!(tokenize("").is_empty());
    assert!(tokenize("  ,;-- \n\t").is_empty());
}

#[test]
fn tokenize_unicode() {
    assert_eq!(tokenize("Ünïcode ÄÖÜ straße"), toks(&["ünïcode", "äöü", "straße"]));
    assert_eq!(tokenize("日本語 テキスト"), toks(&["日本語", "テキスト"]));
}

#[test]
fn tokenize_words_are_alphanumeric_runs() {
    let text = "Borrow-checker: memory_safety (2024)";
    let t = tokenize(text);
    assert!(t.iter().all(|w| !w.is_empty() && w.chars().all(|c| c.is_alphanumeric())));
    let joined: String = t.concat();
    let alnum: String = text.to_lowercase().chars().filter(|c| c.is_alphanumeric()).collect();
    assert_eq!(joined, alnum);
}

#[test]
fn truncate_chars_cuts_with_ellipsis() {
    assert_eq!(truncate_chars("hello world", 5), "hello…");
    assert_eq!(truncate_chars("hello", 5), "hello");
    assert_eq!(truncate_chars("héllo wörld", 7), "héllo w…");
    assert_eq!(truncate_chars("", 0), "");
    assert_eq!(truncate_chars("ab", 0), "…");
}

#[test]
fn index_path_joins_components() {
    assert_eq!(index_path("/tmp/x"), "/tmp/x/.rsearch/index.bin");
    assert_eq!(index_path("/tmp/x/"), "/tmp/x/.rsearch/index.bin");
    assert_eq!(index_path(""), ".rsearch/index.bin");
    assert_eq!(index_path("/"), "/.rsearch/index.bin");
}

#[test]
fn new_index_is_empty() {
    let idx = Index::new();
    assert_eq!(idx.live_doc_count(), 0);
    assert_eq!(idx.total_tokens(), 0);
    assert!(idx.docs().is_empty());
    assert!(idx.term_list().is_empty());
    let d = Index::default();
    assert_eq!(d.live_doc_count(), 0);
}

#[test]
fn add_doc_builds_postings() {
    let mut idx = Index::new();
    idx.add_doc("a.txt".to_string(), &toks(&["x", "y", "x"]), 10, 100);
    idx.add_doc("b.txt".to_string(), &toks(&["y", "z"]), 11, 200);
    assert_eq!(idx.live_doc_count(), 2);
    assert_eq!(idx.total_tokens(), 5);
    assert_eq!(idx.doc_id("a.txt"), Some(0));
    assert_eq!(idx.doc_id("b.txt"), Some(1));
    assert_eq!(idx.doc_id("c.txt"), None);
    assert_eq!(idx.postings("x").unwrap(), &vec![Posting { doc_id: 0, term_freq: 2 }]);
    assert_eq!(
        idx.postings("y").unwrap(),
        &vec![Posting { doc_id: 0, term_freq: 1 }, Posting { doc_id: 1, term_freq: 1 }]
    );
    assert_eq!(idx.postings("z").unwrap(), &vec![Posting { doc_id: 1, term_freq: 1 }]);
    assert!(idx.postings("w").is_none());
    assert_eq!(idx.term_list(), &toks(&["x", "y", "z"]));
    let d = &idx.docs()[0];
    assert_eq!((d.path.as_str(), d.len, d.mtime, d.size), ("a.txt", 3, 10, 100));
}

#[test]
fn remove_doc_tombstones() {
    let mut idx = Index::new();
    idx.add_doc("a.txt".to_string(), &toks(&["x", "y"]), 1, 2);
    idx.add_doc("b.txt".to_string(), &toks(&["x"]), 1, 2);
    idx.remove_doc("a.txt");
    assert_eq!(idx.live_doc_count(), 1);
    assert_eq!(idx.total_tokens(), 1);
    assert_eq!(idx.doc_id("a.txt"), None);
    let d = &idx.docs()[0];
    assert_eq!((d.path.as_str(), d.len, d.mtime, d.size), ("", 0, 1, 2));
    // postings are left in place
    assert_eq!(idx.postings("x").unwrap().len(), 2);
    // removing an unknown path changes nothing
    idx.remove_doc("nope.txt");
    assert_eq!(idx.live_doc_count(), 1);
    assert_eq!(idx.docs().len(), 2);
}

#[test]
fn reindex_assigns_fresh_id() {
    let mut idx = Index::new();
    idx.add_doc("a.txt".to_string(), &toks(&["old"]), 1, 1);
    idx.add_doc("a.txt".to_string(), &toks(&["new", "new"]), 2, 2);
    assert_eq!(idx.live_doc_count(), 1);
    assert_eq!(idx.doc_id("a.txt"), Some(1));
    assert_eq!(idx.docs()[0].path, "");
    assert_eq!(idx.total_tokens(), 2);
    assert_eq!(idx.postings("new").unwrap(), &vec![Posting { doc_id: 1, term_freq: 2 }]);
    assert_eq!(idx.postings("old").unwrap(), &vec![Posting { doc_id: 0, term_freq: 1 }]);
}

#[test]
fn add_doc_with_no_tokens() {
    let mut idx = Index::new();
    idx.add_doc("empty.txt".to_string(), &vec![], 0, 0);
    assert_eq!(idx.live_doc_count(), 1);
    assert_eq!(idx.docs()[0].len, 0);
    assert!(idx.term_list().is_empty());
}

#[test]
fn can_add_checks_limits() {
    let idx = Index::new();
    assert!(idx.can_add("a.txt", &toks(&["a", "b"])));
}

#[test]
fn can_add_counts_the_removal_first() {
    // a stored index whose token total is at the top of u64
    let idx = Index::from_parts(
        vec![],
        vec![DocMeta { path: "a".to_string(), len: 5, mtime: 0, size: 0 }],
        vec![("a".to_string(), 0)],
        u64::MAX,
    );
    // re-indexing "a" first takes its 5 tokens off the total
    assert!(idx.can_add("a", &toks(&["p", "q", "r"])));
    assert!(!idx.can_add("a", &toks(&["p", "q", "r", "s", "t", "u"])));
    assert!(!idx.can_add("b", &toks(&["p"])));
    assert!(idx.can_add("b", &vec![]));
    let mut idx = idx;
    idx.add_doc("a".to_string(), &toks(&["p", "q", "r"]), 1, 1);
    assert_eq!(idx.total_tokens(), u64::MAX - 2);
    assert_eq!(idx.doc_id("a"), Some(1));
}

#[test]
fn parts_round_trip() {
    let mut idx = Index::new();
    idx.add_doc("a.txt".to_string(), &toks(&["x", "y", "x"]), 10, 100);
    idx.add_doc("b.txt".to_string(), &toks(&["y"]), 11, 200);
    idx.remove_doc("a.txt");
    idx.add_doc("c.txt".to_string(), &toks(&["z"]), 12, 300);
    let (terms, docs, paths, total) = idx.to_parts();
    assert_eq!(paths, vec![("b.txt".to_string(), 1), ("c.txt".to_string(), 2)]);
    let back = Index::from_parts(terms, docs, paths, total);
    assert_eq!(back.live_doc_count(), 2);
    assert_eq!(back.total_tokens(), idx.total_tokens());
    assert_eq!(back.doc_id("b.txt"), Some(1));
    assert_eq!(back.doc_id("a.txt"), None);
    assert_eq!(back.postings("x"), idx.postings("x"));
    assert_eq!(back.postings("y"), idx.postings("y"));
    assert_eq!(back.term_list(), idx.term_list());
}

fn meta(path: &str, len: u32) -> DocMeta {
    DocMeta { path: path.to_string(), len, mtime: 0, size: 0 }
}

#[test]
fn from_parts_takes_parts_as_given() {
    // a posting naming a missing document is kept
    let idx = Index::from_parts(
        vec![("x".to_string(), vec![Posting { doc_id: 3, term_freq: 1 }])],
        vec![meta("a", 1)],
        vec![("a".to_string(), 0)],
        1,
    );
    assert_eq!(idx.postings("x").unwrap(), &vec![Posting { doc_id: 3, term_freq: 1 }]);
    assert_eq!(idx.doc_id("a"), Some(0));
    // a term given twice keeps its last entry
    let idx = Index::from_parts(
        vec![
            ("x".to_string(), vec![Posting { doc_id: 0, term_freq: 1 }]),
            ("x".to_string(), vec![Posting { doc_id: 0, term_freq: 2 }]),
        ],
        vec![meta("a", 3)],
        vec![("a".to_string(), 0)],
        3,
    );
    assert_eq!(idx.postings("x").unwrap(), &vec![Posting { doc_id: 0, term_freq: 2 }]);
    assert_eq!(idx.term_list(), &vec!["x".to_string()]);
    // a path given twice keeps its last entry
    let idx = Index::from_parts(
        vec![],
        vec![meta("a", 1), meta("a", 1)],
        vec![("a".to_string(), 0), ("a".to_string(), 1)],
        2,
    );
    assert_eq!(idx.doc_id("a"), Some(1));
    assert_eq!(idx.path_entries(), vec![("a".to_string(), 1)]);
    // a path pointing at a record with another path
    let idx = Index::from_parts(vec![], vec![meta("a", 1)], vec![("b".to_string(), 0)], 1);
    assert_eq!(idx.doc_id("b"), Some(0));
    assert_eq!(idx.doc_id("a"), None);
    // a live record that is not indexed still counts as live
    let idx = Index::from_parts(vec![], vec![meta("a", 1)], vec![], 1);
    assert_eq!(idx.live_doc_count(), 1);
    assert_eq!(idx.doc_id("a"), None);
    // a path id out of range: removing it touches no record
    let mut idx = Index::from_parts(vec![], vec![], vec![("a".to_string(), 5)], 4);
    assert_eq!(idx.doc_id("a"), Some(5));
    idx.remove_doc("a");
    assert_eq!(idx.doc_id("a"), None);
    assert_eq!(idx.total_tokens(), 4);
    assert!(idx.docs().is_empty());
}

#[test]
fn term_matches_skips_tombstones_and_missing_terms() {
    let mut idx = Index::new();
    idx.add_doc("a.txt".to_string(), &toks(&["rust", "memory"]), 1, 1);
    idx.add_doc("b.txt".to_string(), &toks(&["rust"]), 1, 1);
    idx.add_doc("e.txt".to_string(), &vec![], 1, 1);
    idx.remove_doc("a.txt");
    let m = term_matches(&idx, &toks(&["rust", "memory", "absent", "rust"]));
    let expect = vec![LivePosting { doc_id: 1, term_freq: 1, doc_len: 1 }];
    assert_eq!(m, vec![expect.clone(), expect]);
}

#[test]
fn term_matches_doc_len_at_least_one() {
    let mut idx = Index::new();
    idx.add_doc("a.txt".to_string(), &toks(&["q", "q", "r"]), 1, 1);
    let m = term_matches(&idx, &toks(&["q"]));
    assert_eq!(m, vec![vec![LivePosting { doc_id: 0, term_freq: 2, doc_len: 3 }]]);
}

fn found(path: &str, mtime: u64, size: u64) -> FoundFile {
    FoundFile { path: path.to_string(), mtime, size }
}

#[test]
fn refresh_counts_and_tombstones() {
    let mut idx = Index::new();
    // pass 1: fresh build
    let mut r = Refresh::new();
    for f in [found("a", 1, 1), found("b", 1, 1), found("c", 1, 1)] {
        assert!(r.visit(&idx, &f));
        r.index_file(&mut idx, &f, &toks(&["w"]));
    }
    let s = r.finish(&mut idx, 7);
    assert_eq!((s.added, s.updated, s.removed, s.total_docs, s.elapsed_ms), (3, 0, 0, 3, 7));

    // pass 2: nothing changed -> no-op
    let mut r = Refresh::new();
    for f in [found("a", 1, 1), found("b", 1, 1), found("c", 1, 1)] {
        assert!(!r.visit(&idx, &f));
    }
    let s = r.finish(&mut idx, 0);
    assert_eq!((s.added, s.updated, s.removed, s.total_docs), (0, 0, 0, 3));
    assert_eq!(idx.docs().len(), 3);

    // pass 3: b changed, c vanished, d is new
    let mut r = Refresh::new();
    for f in [found("a", 1, 1), found("b", 2, 1), found("d", 1, 1)] {
        if r.visit(&idx, &f) {
            r.index_file(&mut idx, &f, &toks(&["v"]));
        }
    }
    let s = r.finish(&mut idx, 0);
    assert_eq!((s.added, s.updated, s.removed, s.total_docs), (1, 1, 1, 3));
    assert_eq!(idx.doc_id("c"), None);
    assert!(idx.doc_id("b").is_some());
    assert!(r_is_size_change_detected());
}

fn r_is_size_change_detected() -> bool {
    let mut idx = Index::new();
    idx.add_doc("a".to_string(), &toks(&["x"]), 5, 10);
    let mut r = Refresh::new();
    r.visit(&idx, &found("a", 5, 11))
}

#[test]
fn refresh_after_reload_is_noop() {
    let files = [found("a", 1, 10), found("b", 2, 20), found("c", 3, 30)];
    let mut idx = Index::new();
    let mut r = Refresh::new();
    for f in files.iter() {
        if r.visit(&idx, f) {
            // "c" cannot be read as text
            if f.path != "c" {
                r.index_file(&mut idx, f, &toks(&["w", f.path.as_str()]));
            }
        }
    }
    let s = r.finish(&mut idx, 0);
    assert_eq!((s.added, s.updated, s.removed, s.total_docs), (2, 0, 0, 2));
    // save and load
    let (terms, docs, paths, total) = idx.to_parts();
    let mut back = Index::from_parts(terms, docs, paths, total);
    // second pass over the unchanged tree
    let mut r = Refresh::new();
    for f in files.iter() {
        if r.visit(&back, f) {
            assert_eq!(f.path, "c");
        }
    }
    let s = r.finish(&mut back, 0);
    assert_eq!((s.added, s.updated, s.removed, s.total_docs), (0, 0, 0, 2));
    let (t1, d1, p1, n1) = back.to_parts();
    let (t2, d2, p2, n2) = idx.to_parts();
    assert_eq!((t1, p1, n1), (t2, p2, n2));
    assert_eq!(d1.len(), d2.len());
    for (x, y) in d1.iter().zip(d2.iter()) {
        assert_eq!((&x.path, x.len, x.mtime, x.size), (&y.path, y.len, y.mtime, y.size));
    }
}

#[test]
fn refresh_counts_overflow_guard() {
    let r = Refresh::new();
    assert!(r.can_count());
}

#[test]
fn keys_in_normal_mode() {
    let mut mode = Mode::Normal;
    let mut q = "abc".to_string();
    assert_eq!(handle_key(&mut mode, &mut q, Key::Char('q')), Action::Quit);
    assert_eq!(handle_key(&mut mode, &mut q, Key::Esc), Action::Quit);
    assert_eq!(handle_key(&mut mode, &mut q, Key::Char('j')), Action::MoveSelection(1));
    assert_eq!(handle_key(&mut mode, &mut q, Key::Down), Action::MoveSelection(1));
    assert_eq!(handle_key(&mut mode, &mut q, Key::Char('k')), Action::MoveSelection(-1));
    assert_eq!(handle_key(&mut mode, &mut q, Key::Up), Action::MoveSelection(-1));
    assert_eq!(handle_key(&mut mode, &mut q, Key::Char('r')), Action::Reindex);
    assert_eq!(handle_key(&mut mode, &mut q, Key::Enter), Action::OpenSelected);
    assert_eq!(handle_key(&mut mode, &mut q, Key::Char('x')), Action::Stay);
    assert_eq!(handle_key(&mut mode, &mut q, Key::Backspace), Action::Stay);
    assert_eq!((mode, q.as_str()), (Mode::Normal, "abc"));
    assert_eq!(handle_key(&mut mode, &mut q, Key::Char('/')), Action::Stay);
    assert_eq!((mode, q.as_str()), (Mode::Search, ""));
}

#[test]
fn keys_in_search_mode() {
    let mut mode = Mode::Search;
    let mut q = String::new();
    for c in "rüst".chars() {
        assert_eq!(handle_key(&mut mode, &mut q, Key::Char(c)), Action::Stay);
    }
    assert_eq!(q, "rüst");
    handle_key(&mut mode, &mut q, Key::Backspace);
    assert_eq!(q, "rüs");
    handle_key(&mut mode, &mut q, Key::Char('q'));
    assert_eq!((mode, q.as_str()), (Mode::Search, "rüsq"));
    assert_eq!(handle_key(&mut mode, &mut q, Key::Enter), Action::RunSearch);
    assert_eq!(mode, Mode::Normal);
    mode = Mode::Search;
    assert_eq!(handle_key(&mut mode, &mut q, Key::Esc), Action::Stay);
    assert_eq!((mode, q.as_str()), (Mode::Normal, "rüsq"));
    let mut empty = String::new();
    let mut m2 = Mode::Search;
    handle_key(&mut m2, &mut empty, Key::Backspace);
    assert_eq!(empty, "");
}

#[test]
fn selection_moves_and_clamps() {
    assert_eq!(next_selection(0, 0, 1), 0);
    assert_eq!(next_selection(0, 3, 1), 1);
    assert_eq!(next_selection(2, 3, 1), 2);
    assert_eq!(next_selection(0, 3, -1), 0);
    assert_eq!(next_selection(1, 3, -1), 0);
    assert_eq!(next_selection(1, 3, 10), 2);
}

#[test]
fn snippet_picks_first_matching_line() {
    let content = "first line\r\n  The Rust borrow checker  \r\nrust again\n";
    assert_eq!(snippet_from(content, "RUST"), "The Rust borrow checker");
    assert_eq!(snippet_from(content, "nothing here"), "");
    assert_eq!(snippet_from(content, ""), "");
    assert_eq!(snippet_from("", "x"), "");
    let long = format!("{}needle", "a".repeat(200));
    assert_eq!(snippet_from(&long, "needle"), format!("{}…", "a".repeat(140)));
    // matches are by substring of the lowercased line
    assert_eq!(snippet_from("Checkers\nx", "check"), "Checkers");
    // a final line without line feed keeps a trailing carriage return
    assert_eq!(snippet_from("a\nfoo\r", "foo"), "foo");
}

#[test]
fn extensions_and_sniffing() {
    assert!(is_texty_extension("md"));
    assert!(is_texty_extension("MD"));
    assert!(is_texty_extension("WikiText"));
    assert!(!is_texty_extension("png"));
    assert!(!is_texty_extension(""));
    assert!(sample_looks_textual(b""));
    assert!(sample_looks_textual(b"plain text\n\twith tabs\r\n"));
    assert!(!sample_looks_textual(b"has a \0 byte"));
    let mut s = vec![b'a'; 95];
    s.extend(vec![1u8; 5]);
    assert!(!sample_looks_textual(&s)); // exactly 5%
    let mut s = vec![b'a'; 96];
    s.extend(vec![1u8; 4]);
    assert!(sample_looks_textual(&s));
}

#[test]
fn search_status_line() {
    assert_eq!(after_search(0, "rust"), (0, "0 results for \"rust\"".to_string()));
    assert_eq!(after_search(1207, ""), (0, "1207 results for \"\"".to_string()));
}

#[test]
fn reindex_status_and_rerun() {
    let stats = BuildStats { added: 3, updated: 10, removed: 0, total_docs: 13, elapsed_ms: 4096 };
    let (status, rerun) = after_reindex(&stats, "query");
    assert_eq!(status, "reindexed: 3 added, 10 updated, 0 removed (4096 ms)");
    assert!(rerun);
    let big = BuildStats {
        added: usize::MAX,
        updated: 0,
        removed: 7,
        total_docs: 0,
        elapsed_ms: u128::MAX,
    };
    let (status, rerun) = after_reindex(&big, "");
    assert_eq!(status, format!("reindexed: {} added, 0 updated, 7 removed ({} ms)", usize::MAX, u128::MAX));
    assert!(!rerun);
}

#[test]
fn tokenize_splits_at_a_space() {
    let (a, b) = ("Rust's Borrow-Checker", "memory SAFETY 2024");
    let joined = tokenize(&format!("{} {}", a, b));
    assert_eq!(joined, [tokenize(a), tokenize(b)].concat());
}

#[test]
fn tokenize_of_joined_tokens_is_the_same() {
    let s = "Inverted index -- PostgreSQL internals, v16!";
    let t = tokenize(s);
    assert_eq!(tokenize(&t.join(" ")), t);
}

#[test]
fn postings_keep_increasing_ids() {
    let mut idx = Index::new();
    idx.add_doc("a".to_string(), &toks(&["x", "y"]), 1, 1);
    idx.add_doc("b".to_string(), &toks(&["x"]), 1, 1);
    idx.add_doc("a".to_string(), &toks(&["x", "x"]), 2, 1);
    let ps = idx.postings("x").unwrap();
    assert_eq!(ps.iter().map(|p| p.doc_id).collect::<Vec<_>>(), vec![0, 1, 2]);
    assert!(ps.iter().all(|p| p.term_freq >= 1));
    let sum: u64 = idx.docs().iter().map(|d| d.len as u64).sum();
    assert_eq!(idx.total_tokens(), sum);
}

use luna_front::arena::Id;
use luna_front::span::{FileCache, Source, Span};

#[test]
fn resolve_memoizes_path() {
    let mut cache = FileCache::new();
    let mut reads = 0;
    let first = cache
        .resolve("main.luna", || {
            reads += 1;
            Ok::<String, String>("let x = 1".to_string())
        })
        .unwrap();
    let second = cache
        .resolve("main.luna", || {
            reads += 1;
            Ok::<String, String>("something else".to_string())
        })
        .unwrap();
    assert_eq!(reads, 1);
    assert!(first == second);
    assert_eq!(cache.get(first).text(), "let x = 1");
    assert!(cache.lookup("main.luna") == Some(first));
}

#[test]
fn resolve_distinct_paths() {
    let mut cache = FileCache::new();
    let a = cache.resolve("a", || Ok::<String, ()>("aa".to_string())).unwrap();
    let b = cache.resolve("b", || Ok::<String, ()>("bb".to_string())).unwrap();
    assert!(a != b);
    assert_eq!(cache.get(a).text(), "aa");
    assert_eq!(cache.get(b).text(), "bb");
    assert!(cache.lookup("c").is_none());
}

#[test]
fn resolve_error_is_not_cached() {
    let mut cache = FileCache::new();
    let r = cache.resolve("missing", || Err::<String, &str>("not found"));
    assert_eq!(r.err(), Some("not found"));
    assert!(cache.lookup("missing").is_none());
    let id = cache.resolve("missing", || Ok::<String, &str>("now here".to_string())).unwrap();
    assert_eq!(cache.get(id).text(), "now here");
}

#[test]
fn resolve_and_get_returns_source() {
    let mut cache = FileCache::new();
    let src = cache.resolve_and_get("x", || Ok::<String, ()>("body".to_string())).unwrap();
    assert_eq!(src.text(), "body");
}

#[test]
fn span_accessors() {
    let id: Id<Source> = Id::default();
    let span = Span::new(3, 9, id);
    assert_eq!(span.start(), 3);
    assert_eq!(span.end(), 9);
    assert!(span.source() == id);
}

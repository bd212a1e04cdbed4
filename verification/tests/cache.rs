//! The persistent cache: where entries lie and when they are used.

use std::collections::HashMap;

use broodcasc::cache::{admits, cache_path, fetched, looked, start, Action, CacheKind, Request};
use broodcasc::CascError;

const HASH: &str = "864772b9ff94f6d372aa4ee90ee2f8ab";

/// A cache whose files are kept in memory, in front of a transport that
/// always gives the same bytes.
struct MemoryCache {
    bytes: Vec<u8>,
    calls: usize,
    files: HashMap<Vec<String>, Vec<u8>>,
}

impl MemoryCache {
    fn new(bytes: Vec<u8>) -> Self {
        MemoryCache {
            bytes,
            calls: 0,
            files: HashMap::new(),
        }
    }

    fn request(&mut self, url: &str, request: Request) -> Result<Vec<u8>, CascError> {
        let mut action = start(url, request);
        loop {
            action = match action {
                Action::Pass => {
                    self.calls += 1;
                    return Ok(self.bytes.clone());
                }
                Action::Look { file, limit } => {
                    let found = self
                        .files
                        .get(&file)
                        .filter(|bytes| admits(bytes.len() as u64, limit))
                        .cloned();
                    looked(request, file, found)
                }
                Action::Fetch { file } => {
                    self.files.remove(&file);
                    self.calls += 1;
                    fetched(url, request, file, Ok(self.bytes.clone()))
                }
                Action::Publish { file, bytes } => {
                    self.files.insert(file, bytes.clone());
                    return Ok(bytes);
                }
                Action::Answer(result) => return result,
            };
        }
    }
}

#[test]
fn cache_path_ignores_hostile_url_components() {
    let hostile = format!("http://host/../../../../escape/data/86/47/{HASH}");

    let path = cache_path(&hostile, CacheKind::Whole)
        .expect("content-addressed URL should be cacheable");

    assert_eq!(path, ["content", "86", "47", HASH]);
    assert!(!path.iter().any(|segment| segment == ".."));
}

#[test]
fn truncated_range_cache_entry_is_refetched_and_repaired() {
    let mut cache = MemoryCache::new(vec![7, 8, 9]);
    let url = format!("http://host/cdn/data/86/47/{HASH}");
    let path = cache_path(&url, CacheKind::Range { offset: 4, len: 3 }).unwrap();
    cache.files.insert(path.clone(), vec![1]);

    let request = Request::Range { offset: 4, len: 3 };
    assert_eq!(cache.request(&url, request).unwrap(), [7, 8, 9]);
    assert_eq!(cache.calls, 1);
    assert_eq!(cache.files[&path], [7, 8, 9]);

    assert_eq!(cache.request(&url, request).unwrap(), [7, 8, 9]);
    assert_eq!(cache.calls, 1);
}

#[test]
fn oversized_whole_cache_entry_is_refetched_without_unbounded_read() {
    let mut cache = MemoryCache::new(vec![7, 8, 9]);
    let url = format!("http://host/cdn/data/86/47/{HASH}");
    let path = cache_path(&url, CacheKind::Whole).unwrap();
    cache.files.insert(path.clone(), vec![0; 4]);

    let request = Request::Whole { max_bytes: 3 };
    assert_eq!(cache.request(&url, request).unwrap(), [7, 8, 9]);
    assert_eq!(cache.calls, 1);
    assert_eq!(cache.files[&path], [7, 8, 9]);
}

#[test]
fn wrong_length_range_response_is_not_cached() {
    let mut cache = MemoryCache::new(vec![7, 8]);
    let url = format!("http://host/cdn/data/86/47/{HASH}");
    let path = cache_path(&url, CacheKind::Range { offset: 4, len: 3 }).unwrap();

    let err = cache
        .request(&url, Request::Range { offset: 4, len: 3 })
        .unwrap_err();
    assert!(matches!(err, CascError::Transport { .. }));
    assert!(!cache.files.contains_key(&path));
}

#[test]
fn wrong_length_range_response_says_both_lengths() {
    let url = format!("http://host/cdn/data/86/47/{HASH}");
    let request = Request::Range { offset: 4, len: 3 };
    match fetched(&url, request, Vec::new(), Ok(vec![7, 8])) {
        Action::Answer(Err(CascError::Transport { url: u, reason })) => {
            assert_eq!(u, url);
            assert_eq!(reason, "range transport returned 2 bytes, wanted 3");
        }
        other => panic!("unexpected action {other:?}"),
    }
    assert!(matches!(
        fetched(&url, Request::Whole { max_bytes: 1 }, Vec::new(), Ok(vec![7, 8])),
        Action::Answer(Err(CascError::LimitExceeded {
            what: "CDN response body",
            limit: 1
        }))
    ));
    assert!(matches!(
        fetched(&url, request, Vec::new(), Err(CascError::NotFound("x".to_string()))),
        Action::Answer(Err(CascError::NotFound(_)))
    ));
}

#[test]
fn cache_files_by_kind() {
    let url = format!("http://host/cdn/data/86/47/{HASH}");
    let index = format!("{url}.index");
    assert_eq!(
        cache_path(&index, CacheKind::Whole).unwrap(),
        ["indices".to_string(), "86".to_string(), "47".to_string(), format!("{HASH}.index")]
    );
    assert_eq!(
        cache_path(&url, CacheKind::Range { offset: 4, len: 30 }).unwrap(),
        ["ranges".to_string(), "86".to_string(), "47".to_string(), format!("{HASH}.r4-30")]
    );
    assert_eq!(cache_path(&index, CacheKind::Range { offset: 4, len: 3 }), None);
    assert_eq!(cache_path("http://host/sc1/versions", CacheKind::Whole), None);
    assert_eq!(cache_path(&format!("{url}0"), CacheKind::Whole), None);
    assert_eq!(cache_path(&url.replace('8', "g"), CacheKind::Whole), None);
    assert_eq!(
        cache_path(&HASH.to_uppercase(), CacheKind::Whole).unwrap(),
        ["content", "86", "47", HASH]
    );
}

#[test]
fn requests_that_are_not_cached_pass_through() {
    let mut cache = MemoryCache::new(vec![1, 2, 3]);
    let url = "http://host/sc1/versions";
    for calls in 1..3 {
        assert_eq!(
            cache.request(url, Request::Whole { max_bytes: 1 }).unwrap(),
            [1, 2, 3]
        );
        assert_eq!(cache.calls, calls);
    }
    assert!(cache.files.is_empty());
}

#[test]
fn whole_entry_is_fetched_once() {
    let mut cache = MemoryCache::new(vec![1, 2, 3]);
    let url = format!("http://host/cdn/data/86/47/{HASH}");
    for _ in 0..3 {
        assert_eq!(
            cache.request(&url, Request::Whole { max_bytes: 3 }).unwrap(),
            [1, 2, 3]
        );
    }
    assert_eq!(cache.calls, 1);
    // Another host serves the same content address from the same file.
    let other = format!("http://other/{HASH}");
    assert!(cache.request(&other, Request::Whole { max_bytes: 3 }).is_ok());
    assert_eq!(cache.calls, 1);
}

#[test]
fn cache_sizes_are_admitted_up_to_the_limit() {
    assert!(admits(0, 0));
    assert!(admits(3, 3));
    assert!(!admits(4, 3));
    assert!(!admits(u64::MAX, 3));
}

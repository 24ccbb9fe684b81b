use lean_to::json::Json;
use lean_to::probes::{copy_value, ProbeCache, MAX_CACHE_ENTRIES_PER_FILE};

fn number(v: Option<Option<Json>>) -> Option<Option<u64>> {
    v.map(|o| o.map(|j| j.as_u64().unwrap()))
}

#[test]
fn goals_are_found_again() {
    let mut c = ProbeCache::new();
    assert_eq!(number(c.lookup("u", 1, 2, 3)), None);
    c.store("u", 1, 2, 3, Some(Json::number(9)));
    c.store("u", 1, 2, 4, None);
    assert_eq!(number(c.lookup("u", 1, 2, 3)), Some(Some(9)));
    assert_eq!(number(c.lookup("u", 1, 2, 4)), Some(None));
    assert_eq!(number(c.lookup("u", 1, 3, 3)), None);
    assert_eq!(number(c.lookup("v", 1, 2, 3)), None);
    c.store("u", 1, 2, 3, Some(Json::number(10)));
    assert_eq!(number(c.lookup("u", 1, 2, 3)), Some(Some(10)));
}

#[test]
fn goals_go_with_their_version() {
    let mut c = ProbeCache::new();
    c.store("u", 1, 2, 3, Some(Json::number(9)));
    assert_eq!(number(c.lookup("u", 2, 2, 3)), None);
    assert_eq!(number(c.lookup("u", 1, 2, 3)), Some(Some(9)));
    c.store("u", 2, 5, 5, None);
    assert_eq!(number(c.lookup("u", 1, 2, 3)), None);
    c.invalidate("u");
    assert_eq!(number(c.lookup("u", 2, 5, 5)), None);
}

#[test]
fn the_goal_that_was_used_last_stays() {
    let mut c = ProbeCache::new();
    let n = MAX_CACHE_ENTRIES_PER_FILE as u64;
    assert_eq!(n, 2048);
    for i in 0..n {
        c.store("u", 1, i, 0, Some(Json::number(i)));
    }
    assert_eq!(number(c.lookup("u", 1, 0, 0)), Some(Some(0)));
    c.store("u", 1, n, 0, Some(Json::number(n)));
    assert_eq!(number(c.lookup("u", 1, 0, 0)), Some(Some(0)));
    assert_eq!(number(c.lookup("u", 1, 1, 0)), None);
    assert_eq!(number(c.lookup("u", 1, 2, 0)), Some(Some(2)));
    assert_eq!(number(c.lookup("u", 1, n, 0)), Some(Some(n)));
}

#[test]
fn values_are_copied() {
    assert_eq!(copy_value(&None), None);
    assert_eq!(copy_value(&Some(Json::text("x"))), Some(Json::text("x")));
}

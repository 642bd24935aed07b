use sdl_helper::{DrawError, Handle, LoadError, ResourceCache};

fn make(path: &str) -> Result<String, String> {
    Ok(format!("decoded {}", path))
}

fn blit_ok(_: &String) -> Result<(), String> {
    Ok(())
}

#[test]
fn scenario_reuse_aliases_old_handle() {
    let mut cache: ResourceCache<String> = ResourceCache::new();
    let a = cache.load("a.png", make).unwrap();
    assert_eq!(a, Handle { id: 0 });
    let b = cache.load("b.png", make).unwrap();
    assert_eq!(b, Handle { id: 1 });
    assert!(cache.unload(Handle { id: 0 }));
    let c = cache.load("c.png", make).unwrap();
    assert_eq!(c, Handle { id: 0 });
    assert!(cache.draw(Handle { id: 0 }, blit_ok).is_ok());
    let mut seen = String::new();
    let old = a;
    let r = cache.draw(old, |t: &String| {
        seen = t.clone();
        Ok::<(), String>(())
    });
    assert!(r.is_ok());
    assert_eq!(seen, "decoded c.png");
}

#[test]
fn same_path_is_created_once() {
    let mut cache: ResourceCache<String> = ResourceCache::new();
    let mut calls = 0;
    let first = cache
        .load("font.ttf", |p: &str| {
            calls += 1;
            Ok::<String, String>(format!("{} at 12", p))
        })
        .unwrap();
    let second = cache
        .load("font.ttf", |p: &str| {
            calls += 1;
            Ok::<String, String>(format!("{} at 30", p))
        })
        .unwrap();
    assert_eq!(first, second);
    assert_eq!(calls, 1);
    assert_eq!(cache.slot_count(), 1);
    let mut seen = String::new();
    cache
        .draw(second, |t: &String| {
            seen = t.clone();
            Ok::<(), String>(())
        })
        .unwrap();
    assert_eq!(seen, "font.ttf at 12");
}

#[test]
fn different_spellings_are_different_keys() {
    let mut cache: ResourceCache<String> = ResourceCache::new();
    let a = cache.load("img/a.png", make).unwrap();
    let b = cache.load("img//a.png", make).unwrap();
    assert_ne!(a, b);
}

#[test]
fn unloaded_slot_is_reused_by_next_path() {
    let mut cache: ResourceCache<String> = ResourceCache::new();
    cache.load("x.png", make).unwrap();
    let a = cache.load("a.png", make).unwrap();
    cache.load("y.png", make).unwrap();
    assert_eq!(a.id, 1);
    cache.unload(a);
    let b = cache.load("b.png", make).unwrap();
    assert_eq!(b.id, a.id);
    assert_eq!(cache.slot_count(), 3);
}

#[test]
fn lowest_free_slot_is_taken_first() {
    let mut cache: ResourceCache<String> = ResourceCache::new();
    let h0 = cache.load("0", make).unwrap();
    cache.load("1", make).unwrap();
    let h2 = cache.load("2", make).unwrap();
    cache.unload(h2);
    cache.unload(h0);
    assert_eq!(cache.load("n", make).unwrap(), Handle { id: 0 });
    assert_eq!(cache.load("m", make).unwrap(), Handle { id: 2 });
    assert_eq!(cache.load("k", make).unwrap(), Handle { id: 3 });
}

#[test]
fn draw_after_unload_is_missing() {
    let mut cache: ResourceCache<String> = ResourceCache::new();
    let h = cache.load("a.png", make).unwrap();
    cache.unload(h);
    let mut called = false;
    let r = cache.draw(h, |_: &String| {
        called = true;
        Ok::<(), String>(())
    });
    assert!(matches!(r, Err(DrawError::MissingResource)));
    assert!(!called);
    assert!(!cache.is_loaded(h));
}

#[test]
fn draw_never_loaded_handle_is_missing() {
    let cache: ResourceCache<String> = ResourceCache::new();
    let r = cache.draw(Handle { id: 7 }, blit_ok);
    assert!(matches!(r, Err(DrawError::MissingResource)));
}

#[test]
fn draw_backend_failure_is_passed_on() {
    let mut cache: ResourceCache<String> = ResourceCache::new();
    let h = cache.load("a.png", make).unwrap();
    let r = cache.draw(h, |_: &String| Err::<(), String>("surface lost".to_string()));
    match r {
        Err(DrawError::BackendFailure(e)) => assert_eq!(e, "surface lost"),
        _ => panic!("expected a backend failure"),
    }
}

#[test]
fn double_unload_is_a_no_op() {
    let mut cache: ResourceCache<String> = ResourceCache::new();
    let a = cache.load("a.png", make).unwrap();
    let b = cache.load("b.png", make).unwrap();
    assert!(cache.unload(a));
    assert!(!cache.unload(a));
    assert!(cache.is_loaded(b));
    assert_eq!(cache.handle_of("b.png"), Some(b));
    assert_eq!(cache.handle_of("a.png"), None);
    assert_eq!(cache.slot_count(), 2);
    assert!(!cache.unload(Handle { id: 40 }));
}

#[test]
fn failed_creation_changes_nothing() {
    let mut cache: ResourceCache<String> = ResourceCache::new();
    let a = cache.load("a.png", make).unwrap();
    cache.unload(a);
    let r = cache.load("bad.png", |_: &str| Err::<String, String>("unsupported format".to_string()));
    match r {
        Err(LoadError::CreationFailed(e)) => assert_eq!(e, "unsupported format"),
        Ok(_) => panic!("expected a creation failure"),
    }
    assert_eq!(cache.handle_of("bad.png"), None);
    assert_eq!(cache.slot_count(), 1);
    assert!(!cache.is_loaded(Handle { id: 0 }));
    let b = cache.load("bad.png", make).unwrap();
    assert_eq!(b, Handle { id: 0 });
}

#[test]
fn first_load_appends_to_empty_cache() {
    let mut cache: ResourceCache<u32> = ResourceCache::new();
    assert_eq!(cache.slot_count(), 0);
    let h = cache.load("a", |_: &str| Ok::<u32, ()>(64)).unwrap();
    assert_eq!(h, Handle { id: 0 });
    assert_eq!(cache.slot_count(), 1);
    assert_eq!(cache.handle_of("a"), Some(h));
}

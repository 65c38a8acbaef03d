use image::{DynamicImage, ImageFormat, RgbaImage};
use std::io::Cursor;
use tower_cache::args_cli::Opt;
use tower_cache::cache::{CacheEntry, DecodedImage, ImageMetadata};
use tower_cache::decode::{decode_image, DecodeError};
use tower_cache::loader::{neighbor_in_order, DecodeJob, ImageLoader};
use tower_cache::placeholder::TwPlaceHolder;
use tower_cache::queue::Priority;

fn entry(key: &str) -> CacheEntry {
    CacheEntry {
        key: key.to_string(),
        bitmap: DecodedImage {
            width: 1,
            height: 1,
            pixels: vec![1, 2, 3, 4],
        },
        metadata: ImageMetadata {
            width: 1,
            height: 1,
            source_path: key.to_string(),
        },
    }
}

#[test]
fn duplicate_submission_yields_a_single_job() {
    let mut l = ImageLoader::new();
    assert!(l.submit_request("/tmp/a.png".to_string(), Priority::Interactive));
    // same key again before the first decode completes
    assert!(!l.submit_request("/tmp/a.png".to_string(), Priority::Interactive));
    assert!(!l.submit_request("/tmp/a.png".to_string(), Priority::Prefetch));
    let jobs = l.poll_tick();
    assert_eq!(jobs.len(), 1);
    assert_eq!(jobs[0].key, "/tmp/a.png");
    // still in flight: a resubmission is coalesced, and no new job appears
    assert!(!l.submit_request("/tmp/a.png".to_string(), Priority::Interactive));
    assert!(l.poll_tick().is_empty());
}

#[test]
fn interactive_jobs_are_dispatched_before_prefetch() {
    let mut l = ImageLoader::new();
    assert!(l.submit_request("/tmp/n1.png".to_string(), Priority::Prefetch));
    assert!(l.submit_request("/tmp/n2.png".to_string(), Priority::Prefetch));
    assert!(l.submit_request("/tmp/drop.png".to_string(), Priority::Interactive));
    let jobs = l.poll_tick();
    assert_eq!(jobs.len(), 3);
    assert_eq!(jobs[0].key, "/tmp/drop.png");
    assert_eq!(jobs[1].key, "/tmp/n1.png");
    assert_eq!(jobs[2].key, "/tmp/n2.png");
}

#[test]
fn resolution_waits_for_the_entry_then_promotes() {
    let mut l = ImageLoader::new();
    let path = "/tmp/a.png".to_string();
    assert!(l.submit_request(path.clone(), Priority::Interactive));
    // nothing cached yet: the placeholder cannot resolve
    assert!(l.try_take_resolved(&path).is_none());
    let jobs = l.poll_tick();
    assert_eq!(jobs.len(), 1);
    // decode still running: still unresolved
    assert!(l.try_take_resolved(&path).is_none());
    let job = jobs.into_iter().next().unwrap();
    assert!(l.complete_decode(job, Ok(entry("/tmp/a.png"))));
    // the very next poll sees the entry
    let got = l.try_take_resolved(&path).expect("entry must be cached now");
    assert_eq!(got.metadata.width, 1);
    assert_eq!(got.bitmap.pixels, vec![1, 2, 3, 4]);
}

#[test]
fn try_resolve_carries_the_placeholder_origin() {
    let mut l = ImageLoader::new();
    assert!(l.submit_request("/tmp/a.png".to_string(), Priority::Interactive));
    let placeholder = TwPlaceHolder {
        twimage_path: "/tmp/a.png".to_string(),
        to_cache: false,
        from_next: true,
    };
    assert!(l.try_resolve(&placeholder).is_none());
    let jobs = l.poll_tick();
    for job in jobs {
        let key = job.key.clone();
        l.complete_decode(job, Ok(entry(&key)));
    }
    let resolved = l.try_resolve(&placeholder).expect("resolved content");
    assert!(resolved.from_next);
    assert_eq!(resolved.entry.key, "/tmp/a.png");
}

#[test]
fn failed_decode_releases_the_in_flight_mark() {
    let mut l = ImageLoader::new();
    let path = "/tmp/a.png".to_string();
    assert!(l.submit_request(path.clone(), Priority::Interactive));
    let jobs = l.poll_tick();
    assert_eq!(jobs.len(), 1);
    let job = jobs.into_iter().next().unwrap();
    assert!(!l.complete_decode(job, Err(DecodeError::UnreadableFile)));
    assert!(l.try_take_resolved(&path).is_none());
    // the request can be retried now that nothing is in flight
    assert!(l.submit_request(path.clone(), Priority::Interactive));
}

#[test]
fn invalidation_clears_the_cache_and_voids_old_generations() {
    let mut l = ImageLoader::new();
    let path = "/tmp/old/a.png".to_string();
    assert!(l.submit_request(path.clone(), Priority::Interactive));
    let jobs = l.poll_tick();
    let job = jobs.into_iter().next().unwrap();
    let old_generation = job.generation;
    assert!(l.complete_decode(job, Ok(entry("/tmp/old/a.png"))));
    assert!(l.try_take_resolved(&path).is_some());

    l.invalidate_directory();
    // every previously cached key is gone
    assert!(l.try_take_resolved(&path).is_none());
    // a decode result that was still in flight when the directory changed
    // carries the old generation and is not inserted
    let stale = DecodeJob {
        key: "/tmp/old/b.png".to_string(),
        generation: old_generation,
    };
    assert!(!l.complete_decode(stale, Ok(entry("/tmp/old/b.png"))));
    assert!(l
        .try_take_resolved(&"/tmp/old/b.png".to_string())
        .is_none());
}

#[test]
fn completion_for_a_key_never_dispatched_is_ignored() {
    let mut l = ImageLoader::new();
    let generation = l.current_generation();
    let rogue = DecodeJob {
        key: "/tmp/rogue.png".to_string(),
        generation,
    };
    assert!(!l.complete_decode(rogue, Ok(entry("/tmp/rogue.png"))));
    assert!(l
        .try_take_resolved(&"/tmp/rogue.png".to_string())
        .is_none());
}

#[test]
fn end_to_end_submit_poll_decode_resolve() {
    // a 2x2 RGBA image, through the whole pipeline
    let raw = vec![
        200, 100, 50, 128, //
        10, 20, 30, 255, //
        0, 0, 0, 0, //
        255, 255, 255, 255,
    ];
    let img = RgbaImage::from_raw(2, 2, raw).unwrap();
    let mut bytes: Vec<u8> = Vec::new();
    DynamicImage::ImageRgba8(img)
        .write_to(&mut Cursor::new(&mut bytes), ImageFormat::Png)
        .unwrap();

    let mut l = ImageLoader::new();
    let path = "/tmp/a.png".to_string();
    assert!(l.submit_request(path.clone(), Priority::Interactive));

    let mut resolved = false;
    for _tick in 0..3 {
        for job in l.poll_tick() {
            // the driver reads the file; here the bytes are already in hand
            let outcome = decode_image(&job.key.clone(), Some(&bytes));
            l.complete_decode(job, outcome);
        }
        if let Some(entry) = l.try_take_resolved(&path) {
            assert_eq!(entry.metadata.width, 2);
            assert_eq!(entry.metadata.height, 2);
            assert_eq!(entry.metadata.source_path, path);
            assert_eq!(
                entry.bitmap.pixels,
                vec![
                    100, 50, 25, 128, //
                    10, 20, 30, 255, //
                    0, 0, 0, 0, //
                    255, 255, 255, 255,
                ]
            );
            resolved = true;
            break;
        }
    }
    assert!(resolved, "the submitted image must resolve");
}

#[test]
fn cli_inputs_are_submitted_as_interactive_requests() {
    let opt = Opt {
        inputs: vec!["/tmp/a.png".to_string(), "/tmp/b.png".to_string()],
    };
    let mut l = ImageLoader::new();
    for input in &opt.inputs {
        assert!(l.submit_request(input.clone(), Priority::Interactive));
    }
    let jobs = l.poll_tick();
    assert_eq!(jobs.len(), 2);
    assert_eq!(jobs[0].key, "/tmp/a.png");
    assert_eq!(jobs[1].key, "/tmp/b.png");
}

#[test]
fn neighbor_in_order_walks_the_file_list() {
    let files = vec![
        "/d/a.png".to_string(),
        "/d/b.png".to_string(),
        "/d/c.png".to_string(),
    ];
    let b = "/d/b.png".to_string();
    assert_eq!(neighbor_in_order(&files, &b, true), Some("/d/c.png".to_string()));
    assert_eq!(neighbor_in_order(&files, &b, false), Some("/d/a.png".to_string()));
    let a = "/d/a.png".to_string();
    assert_eq!(neighbor_in_order(&files, &a, false), None);
    let c = "/d/c.png".to_string();
    assert_eq!(neighbor_in_order(&files, &c, true), None);
    let missing = "/d/zz.png".to_string();
    assert_eq!(neighbor_in_order(&files, &missing, true), None);
}

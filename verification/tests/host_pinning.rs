//! Where the CUDA runtime is looked for, and what is page-locked with it.

use echo::host_pinning::register::{
    error_name, pin_all, unpin_all, PinAction, PinPhase, PinRun, CUDA_HOST_REGISTER_PORTABLE,
};
use echo::host_pinning::resolve::{
    candidates, empty_rung_note, is_runtime_lib, scan_mapped_runtimes, soname_major, symbol_name,
    Candidate, LadderWalk, OpenEvent, OpenStep, Rung, SYMBOL_COUNT,
};
use echo::host_pinning::wheels::{search_wheel_roots, DirEntry};
use echo::host_pinning::{PinError, Region, CUDA_SUCCESS};
use echo::ring_buf::PytreeRingBuf;

/// A runtime mapped as several segments, unrelated libraries, anonymous and
/// special mappings, a path with a space in it, and a deleted mapping.
const MAPS_FIXTURE: &str = "\
55a3c0000000-55a3c0021000 r--p 00000000 fd:01 1179651                    /usr/bin/python3.11
7f1a00000000-7f1a00021000 r--p 00000000 fd:01 2359310                    /usr/lib/x86_64-linux-gnu/libc.so.6
7f1a10000000-7f1a10800000 rw-p 00000000 00:00 0
7f1a20000000-7f1a20a00000 r--p 00000000 fd:01 4194313                    /venv/lib/python3.11/site-packages/nvidia/cu13/lib/libcudart.so.13
7f1a20a00000-7f1a21400000 r-xp 00a00000 fd:01 4194313                    /venv/lib/python3.11/site-packages/nvidia/cu13/lib/libcudart.so.13
7f1a30000000-7f1a30100000 r-xp 00000000 fd:01 4194320                    /opt/my libs/libcudart.so.12
7f1a40000000-7f1a40100000 r-xp 00000000 fd:01 4194321                    /tmp/stale/libcudart.so.11 (deleted)
7ffd00000000-7ffd00021000 rw-p 00000000 00:00 0                          [stack]
ffffffffff600000-ffffffffff601000 --xp 00000000 00:00 0                  [vsyscall]
";

/// The entries of a directory, out of the paths of all files.
fn entries(files: &[String], dir: &str) -> Vec<DirEntry> {
    let prefix = format!("{dir}/");
    let mut seen: Vec<String> = Vec::new();
    let mut found = Vec::new();
    for file in files {
        let Some(rest) = file.strip_prefix(prefix.as_str()) else {
            continue;
        };
        let name = rest.split('/').next().unwrap();
        let path = format!("{prefix}{name}");
        if !seen.contains(&path) {
            seen.push(path.clone());
            found.push(DirEntry { is_dir: rest.contains('/'), path });
        }
    }
    found
}

fn found_beneath(files: &[String], roots: &[String]) -> Vec<String> {
    let mut search = search_wheel_roots(&roots.to_vec());
    while let Some((dir, depth)) = search.next_dir() {
        search.visit(depth, &entries(files, &dir));
    }
    search.finish()
}

fn touch(names: &[&str]) -> Vec<String> {
    names.iter().map(|n| format!("/site-packages/nvidia/{n}")).collect()
}

fn nvidia() -> Vec<String> {
    vec!["/site-packages/nvidia".to_string()]
}

/// The calls that a pinning run made, with the CUDA entry points stubbed out.
struct Calls {
    initialised: usize,
    registered: Vec<usize>,
    unregistered: Vec<usize>,
}

/// Drives a run; the registration number `reject` (from 1 on) is rejected.
fn drive(run: &mut PinRun, reject: usize) -> Calls {
    let mut calls = Calls { initialised: 0, registered: vec![], unregistered: vec![] };
    loop {
        let code = match run.action() {
            PinAction::Initialise => {
                assert!(calls.registered.is_empty());
                calls.initialised += 1;
                CUDA_SUCCESS
            }
            PinAction::Register { index } => {
                calls.registered.push(run.region(index).addr);
                if calls.registered.len() == reject {
                    1 // cudaErrorInvalidValue
                } else {
                    CUDA_SUCCESS
                }
            }
            PinAction::Unregister { index } => {
                calls.unregistered.push(run.region(index).addr);
                CUDA_SUCCESS
            }
            PinAction::Finish => return calls,
        };
        run.advance(code);
    }
}

/// Never dereferenced: a run only passes them on.
fn fake_regions(n: usize) -> Vec<Region> {
    (1..=n).map(|i| Region { addr: i * 0x1000, len: 4096 }).collect()
}

/// The buffers of a ring as regions.
fn ring_regions(ring: &PytreeRingBuf) -> Vec<Region> {
    (0..ring.num_arrays())
        .map(|j| {
            let bytes = ring.range_bytes(j, 0, ring.capacity());
            Region { addr: bytes.as_ptr() as usize, len: bytes.len() }
        })
        .collect()
}

fn released(run: &PinRun) -> Vec<usize> {
    run.to_release().iter().map(|&i| run.region(i).addr).collect()
}

// --- runtimes that the process already has mapped ---

#[test]
fn host_pinning_scan_finds_each_mapped_runtime_once_in_order() {
    assert_eq!(
        scan_mapped_runtimes(MAPS_FIXTURE),
        vec![
            "/venv/lib/python3.11/site-packages/nvidia/cu13/lib/libcudart.so.13",
            "/opt/my libs/libcudart.so.12",
            "/tmp/stale/libcudart.so.11",
        ]
    );
}

#[test]
fn host_pinning_scan_ignores_unrelated_libraries() {
    let maps = "\
7f1a00000000-7f1a00021000 r-xp 00000000 fd:01 1 /usr/lib/libcudnn.so.9
7f1a10000000-7f1a10021000 r-xp 00000000 fd:01 2 /usr/lib/libcublas.so.13
7f1a20000000-7f1a20021000 r-xp 00000000 fd:01 3 /usr/lib/libcudart_static.a
";
    assert!(scan_mapped_runtimes(maps).is_empty());
}

#[test]
fn host_pinning_scan_of_a_process_with_no_runtime_yields_nothing() {
    assert!(scan_mapped_runtimes("").is_empty());
}

// --- searching beneath the CUDA vendor package ---

#[test]
fn host_pinning_wheel_search_finds_the_consolidated_layout() {
    // CUDA 13: one wheel, `nvidia/cu13/lib/`.
    let files = touch(&[
        "cu13/lib/libcudart.so.13",
        "cu13/lib/libcudart_static.a",
        "cudnn/lib/libcudnn.so.9",
    ]);
    assert_eq!(
        found_beneath(&files, &nvidia()),
        vec!["/site-packages/nvidia/cu13/lib/libcudart.so.13"]
    );
}

#[test]
fn host_pinning_wheel_search_finds_the_per_component_layout() {
    // CUDA 12: one wheel per component, `nvidia/cuda_runtime/lib/`.
    let files = touch(&["cuda_runtime/lib/libcudart.so.12", "cublas/lib/libcublas.so.12"]);
    assert_eq!(
        found_beneath(&files, &nvidia()),
        vec!["/site-packages/nvidia/cuda_runtime/lib/libcudart.so.12"]
    );
}

#[test]
fn host_pinning_wheel_search_prefers_the_newest_major_version() {
    let files = touch(&[
        "cuda_runtime/lib/libcudart.so.9",
        "cu13/lib/libcudart.so.13",
        "cuda_runtime/lib/libcudart.so.12",
    ]);
    let found = found_beneath(&files, &nvidia());
    let names: Vec<&str> = found.iter().map(|p| p.rsplit('/').next().unwrap()).collect();
    assert_eq!(names, vec!["libcudart.so.13", "libcudart.so.12", "libcudart.so.9"]);
}

#[test]
fn host_pinning_wheel_search_tolerates_missing_and_empty_roots() {
    assert!(found_beneath(&[], &[]).is_empty());
    assert!(found_beneath(&[], &["/does-not-exist".to_string()]).is_empty());
    assert!(found_beneath(&touch(&["readme"]), &nvidia()).is_empty());
}

// --- ladder ordering ---

#[test]
fn host_pinning_ladder_tries_mapped_then_wheel_then_sonames() {
    let files = touch(&["cu13/lib/libcudart.so.13"]);
    let wheel_libs = found_beneath(&files, &nvidia());

    let ladder = candidates(MAPS_FIXTURE, &wheel_libs);
    let rungs: Vec<Rung> = ladder.iter().map(|c| c.rung).collect();
    let names: Vec<&str> = ladder.iter().map(|c| c.name.as_str()).collect();

    assert_eq!(
        rungs,
        vec![
            Rung::AlreadyLoaded,
            Rung::AlreadyLoaded,
            Rung::AlreadyLoaded,
            Rung::InstalledWheel,
            Rung::Soname,
            Rung::Soname,
            Rung::Soname,
        ]
    );
    assert_eq!(
        names,
        vec![
            "/venv/lib/python3.11/site-packages/nvidia/cu13/lib/libcudart.so.13",
            "/opt/my libs/libcudart.so.12",
            "/tmp/stale/libcudart.so.11",
            "/site-packages/nvidia/cu13/lib/libcudart.so.13",
            // Versioned before unversioned: wheels ship no unversioned name.
            "libcudart.so.13",
            "libcudart.so.12",
            "libcudart.so",
        ]
    );
}

#[test]
fn host_pinning_ladder_probes_each_path_once() {
    // A mapped runtime that is also the one the wheel ships.
    let files = touch(&["cu13/lib/libcudart.so.13"]);
    let wheel_libs = found_beneath(&files, &nvidia());
    let maps = format!("7f1a20000000-7f1a20a00000 r-xp 0 fd:01 1 {}\n", wheel_libs[0]);

    let ladder = candidates(&maps, &wheel_libs);
    let mut names: Vec<&str> = ladder.iter().map(|c| c.name.as_str()).collect();
    let before = names.len();
    names.sort_unstable();
    names.dedup();
    assert_eq!(names.len(), before, "ladder contains a duplicate path");
    assert_eq!(ladder[0].rung, Rung::AlreadyLoaded);
    assert_eq!(before, 4);
}

#[test]
fn host_pinning_unresolvable_runtime_reports_every_path_probed() {
    let err = PinError::RuntimeUnavailable {
        probed: vec![
            "/a/libcudart.so.13: boom".into(),
            "libcudart.so: nope".into(),
        ],
    };
    let message = err.message();
    assert!(message.contains("/a/libcudart.so.13: boom"), "{message}");
    assert!(message.contains("libcudart.so: nope"), "{message}");
}

// --- registration and rollback, with the CUDA calls stubbed out ---

#[test]
fn host_pinning_a_failure_on_the_third_region_rolls_back_exactly_the_first_two() {
    let mut run = pin_all(fake_regions(5));
    let calls = drive(&mut run, 3);

    assert_eq!(
        calls.unregistered,
        vec![0x1000, 0x2000],
        "rollback must unregister the regions that succeeded, and only those"
    );
    // Nothing past the failure is attempted.
    assert_eq!(calls.registered.len(), 3);
    let err = run
        .error(Some("cudaErrorInvalidValue".to_string()))
        .expect("registration should have failed");
    assert!(
        err.message().contains("cudaErrorInvalidValue"),
        "the CUDA error must be named, not numeric"
    );
}

#[test]
fn host_pinning_a_successful_pin_registers_every_region_and_rolls_back_nothing() {
    let mut run = pin_all(fake_regions(4));
    let calls = drive(&mut run, 0);
    assert!(run.error(None).is_none(), "registration should have succeeded");
    assert_eq!(calls.registered, vec![0x1000, 0x2000, 0x3000, 0x4000]);
    assert!(calls.unregistered.is_empty());
}

#[test]
fn host_pinning_pinning_forces_runtime_initialisation_first() {
    let mut run = pin_all(fake_regions(1));
    assert_eq!(run.action(), PinAction::Initialise);
    let calls = drive(&mut run, 0);
    assert_eq!(calls.initialised, 1);
}

#[test]
fn host_pinning_dropping_a_pinned_ring_buffer_unregisters_every_buffer() {
    // The success path's teardown, without a GPU: a real ring buffer, stubbed
    // CUDA.
    let ring = PytreeRingBuf::new(vec![64, 128], 8, 4);
    let mut run = pin_all(ring_regions(&ring));
    let calls = drive(&mut run, 0);
    assert_eq!(run.phase(), PinPhase::Pinned);
    assert_eq!(calls.registered.len(), 2, "one registration per array");
    assert!(calls.unregistered.is_empty());
    assert_eq!(
        released(&run),
        calls.registered,
        "teardown must unregister exactly what was registered"
    );
}

#[test]
fn host_pinning_dropping_an_unpinned_ring_buffer_touches_no_cuda_entry_point() {
    let ring = PytreeRingBuf::new(vec![64], 8, 4);
    let run = pin_all(ring_regions(&ring));
    assert!(released(&run).is_empty());
}

#[test]
fn host_pinning_a_ring_buffer_whose_registration_fails_leaves_nothing_registered() {
    // The third array is rejected, so the two that took must be unregistered
    // and teardown must then do nothing more.
    let ring = PytreeRingBuf::new(vec![64, 64, 64, 64], 8, 4);
    let mut run = pin_all(ring_regions(&ring));
    let calls = drive(&mut run, 3);
    assert!(run.error(None).is_some(), "the third array should fail");
    assert_eq!(calls.unregistered.len(), 2);
    assert!(
        released(&run).is_empty(),
        "a failed pin must leave teardown with nothing to reverse"
    );
}

#[test]
fn host_pinning_unpin_all_unregisters_every_region() {
    let regions = fake_regions(3);
    let order: Vec<usize> = unpin_all(&regions).iter().map(|&i| regions[i].addr).collect();
    assert_eq!(order, vec![0x1000, 0x2000, 0x3000]);
}

// --- runtimes that the process already has mapped ---

#[test]
fn tests_scan_finds_each_mapped_runtime_once_in_order() {
    assert_eq!(
        scan_mapped_runtimes(MAPS_FIXTURE),
        vec![
            "/venv/lib/python3.11/site-packages/nvidia/cu13/lib/libcudart.so.13",
            "/opt/my libs/libcudart.so.12",
            "/tmp/stale/libcudart.so.11",
        ]
    );
}

#[test]
fn tests_scan_ignores_unrelated_libraries() {
    let maps = "\
7f1a00000000-7f1a00021000 r-xp 00000000 fd:01 1 /usr/lib/libcudnn.so.9
7f1a10000000-7f1a10021000 r-xp 00000000 fd:01 2 /usr/lib/libcublas.so.13
7f1a20000000-7f1a20021000 r-xp 00000000 fd:01 3 /usr/lib/libcudart_static.a
";
    assert!(scan_mapped_runtimes(maps).is_empty());
}

#[test]
fn tests_scan_of_a_process_with_no_runtime_yields_nothing() {
    assert!(scan_mapped_runtimes("").is_empty());
}

// --- searching beneath the CUDA vendor package ---

#[test]
fn tests_wheel_search_finds_the_consolidated_layout() {
    // CUDA 13: one wheel, `nvidia/cu13/lib/`.
    let files = touch(&[
        "cu13/lib/libcudart.so.13",
        "cu13/lib/libcudart_static.a",
        "cudnn/lib/libcudnn.so.9",
    ]);
    assert_eq!(
        found_beneath(&files, &nvidia()),
        vec!["/site-packages/nvidia/cu13/lib/libcudart.so.13"]
    );
}

#[test]
fn tests_wheel_search_finds_the_per_component_layout() {
    // CUDA 12: one wheel per component, `nvidia/cuda_runtime/lib/`.
    let files = touch(&["cuda_runtime/lib/libcudart.so.12", "cublas/lib/libcublas.so.12"]);
    assert_eq!(
        found_beneath(&files, &nvidia()),
        vec!["/site-packages/nvidia/cuda_runtime/lib/libcudart.so.12"]
    );
}

#[test]
fn tests_wheel_search_prefers_the_newest_major_version() {
    let files = touch(&[
        "cuda_runtime/lib/libcudart.so.9",
        "cu13/lib/libcudart.so.13",
        "cuda_runtime/lib/libcudart.so.12",
    ]);
    let found = found_beneath(&files, &nvidia());
    let names: Vec<&str> = found.iter().map(|p| p.rsplit('/').next().unwrap()).collect();
    assert_eq!(names, vec!["libcudart.so.13", "libcudart.so.12", "libcudart.so.9"]);
}

#[test]
fn tests_wheel_search_tolerates_missing_and_empty_roots() {
    assert!(found_beneath(&[], &[]).is_empty());
    assert!(found_beneath(&[], &["/does-not-exist".to_string()]).is_empty());
    assert!(found_beneath(&touch(&["readme"]), &nvidia()).is_empty());
}

// --- ladder ordering ---

#[test]
fn tests_ladder_tries_mapped_then_wheel_then_sonames() {
    let files = touch(&["cu13/lib/libcudart.so.13"]);
    let wheel_libs = found_beneath(&files, &nvidia());

    let ladder = candidates(MAPS_FIXTURE, &wheel_libs);
    let rungs: Vec<Rung> = ladder.iter().map(|c| c.rung).collect();
    let names: Vec<&str> = ladder.iter().map(|c| c.name.as_str()).collect();

    assert_eq!(
        rungs,
        vec![
            Rung::AlreadyLoaded,
            Rung::AlreadyLoaded,
            Rung::AlreadyLoaded,
            Rung::InstalledWheel,
            Rung::Soname,
            Rung::Soname,
            Rung::Soname,
        ]
    );
    assert_eq!(
        names,
        vec![
            "/venv/lib/python3.11/site-packages/nvidia/cu13/lib/libcudart.so.13",
            "/opt/my libs/libcudart.so.12",
            "/tmp/stale/libcudart.so.11",
            "/site-packages/nvidia/cu13/lib/libcudart.so.13",
            // Versioned before unversioned: wheels ship no unversioned name.
            "libcudart.so.13",
            "libcudart.so.12",
            "libcudart.so",
        ]
    );
}

#[test]
fn tests_ladder_probes_each_path_once() {
    // A mapped runtime that is also the one the wheel ships.
    let files = touch(&["cu13/lib/libcudart.so.13"]);
    let wheel_libs = found_beneath(&files, &nvidia());
    let maps = format!("7f1a20000000-7f1a20a00000 r-xp 0 fd:01 1 {}\n", wheel_libs[0]);

    let ladder = candidates(&maps, &wheel_libs);
    let mut names: Vec<&str> = ladder.iter().map(|c| c.name.as_str()).collect();
    let before = names.len();
    names.sort_unstable();
    names.dedup();
    assert_eq!(names.len(), before, "ladder contains a duplicate path");
    assert_eq!(ladder[0].rung, Rung::AlreadyLoaded);
    assert_eq!(before, 4);
}

#[test]
fn tests_unresolvable_runtime_reports_every_path_probed() {
    let err = PinError::RuntimeUnavailable {
        probed: vec![
            "/a/libcudart.so.13: boom".into(),
            "libcudart.so: nope".into(),
        ],
    };
    let message = err.message();
    assert!(message.contains("/a/libcudart.so.13: boom"), "{message}");
    assert!(message.contains("libcudart.so: nope"), "{message}");
}

// --- registration and rollback, with the CUDA calls stubbed out ---

#[test]
fn tests_a_failure_on_the_third_region_rolls_back_exactly_the_first_two() {
    let mut run = pin_all(fake_regions(5));
    let calls = drive(&mut run, 3);

    assert_eq!(
        calls.unregistered,
        vec![0x1000, 0x2000],
        "rollback must unregister the regions that succeeded, and only those"
    );
    // Nothing past the failure is attempted.
    assert_eq!(calls.registered.len(), 3);
    let err = run
        .error(Some("cudaErrorInvalidValue".to_string()))
        .expect("registration should have failed");
    assert!(
        err.message().contains("cudaErrorInvalidValue"),
        "the CUDA error must be named, not numeric"
    );
}

#[test]
fn tests_a_successful_pin_registers_every_region_and_rolls_back_nothing() {
    let mut run = pin_all(fake_regions(4));
    let calls = drive(&mut run, 0);
    assert!(run.error(None).is_none(), "registration should have succeeded");
    assert_eq!(calls.registered, vec![0x1000, 0x2000, 0x3000, 0x4000]);
    assert!(calls.unregistered.is_empty());
}

#[test]
fn tests_pinning_forces_runtime_initialisation_first() {
    let mut run = pin_all(fake_regions(1));
    assert_eq!(run.action(), PinAction::Initialise);
    let calls = drive(&mut run, 0);
    assert_eq!(calls.initialised, 1);
}

#[test]
fn tests_dropping_a_pinned_ring_buffer_unregisters_every_buffer() {
    // The success path's teardown, without a GPU: a real ring buffer, stubbed
    // CUDA.
    let ring = PytreeRingBuf::new(vec![64, 128], 8, 4);
    let mut run = pin_all(ring_regions(&ring));
    let calls = drive(&mut run, 0);
    assert_eq!(run.phase(), PinPhase::Pinned);
    assert_eq!(calls.registered.len(), 2, "one registration per array");
    assert!(calls.unregistered.is_empty());
    assert_eq!(
        released(&run),
        calls.registered,
        "teardown must unregister exactly what was registered"
    );
}

#[test]
fn tests_dropping_an_unpinned_ring_buffer_touches_no_cuda_entry_point() {
    let ring = PytreeRingBuf::new(vec![64], 8, 4);
    let run = pin_all(ring_regions(&ring));
    assert!(released(&run).is_empty());
}

#[test]
fn tests_a_ring_buffer_whose_registration_fails_leaves_nothing_registered() {
    // The third array is rejected, so the two that took must be unregistered
    // and teardown must then do nothing more.
    let ring = PytreeRingBuf::new(vec![64, 64, 64, 64], 8, 4);
    let mut run = pin_all(ring_regions(&ring));
    let calls = drive(&mut run, 3);
    assert!(run.error(None).is_some(), "the third array should fail");
    assert_eq!(calls.unregistered.len(), 2);
    assert!(
        released(&run).is_empty(),
        "a failed pin must leave teardown with nothing to reverse"
    );
}

#[test]
fn tests_unpin_all_unregisters_every_region() {
    let regions = fake_regions(3);
    let order: Vec<usize> = unpin_all(&regions).iter().map(|&i| regions[i].addr).collect();
    assert_eq!(order, vec![0x1000, 0x2000, 0x3000]);
}

// --- own cases ---

#[test]
fn test_runtime_names() {
    assert!(is_runtime_lib("/x/libcudart.so"));
    assert!(is_runtime_lib("libcudart.so.13.0.48"));
    assert!(!is_runtime_lib("/x/libcudart_static.a"));
    assert!(!is_runtime_lib("/x/libcudart.so.13/readme"));
    assert!(!is_runtime_lib("/x/mylibcudart.so"));
    assert!(!is_runtime_lib(""));
}

#[test]
fn test_major_versions() {
    assert_eq!(soname_major("libcudart.so.13.0.48"), Some(13));
    assert_eq!(soname_major("libcudart.so.12"), Some(12));
    assert_eq!(soname_major("libcudart.so.+9"), Some(9));
    assert_eq!(soname_major("libcudart.so.0007"), Some(7));
    assert_eq!(soname_major("libcudart.so.4294967295"), Some(4294967295));
    assert_eq!(soname_major("libcudart.so.4294967296"), None);
    assert_eq!(soname_major("libcudart.so"), None);
    assert_eq!(soname_major("libcudart.so."), None);
    assert_eq!(soname_major("libcudart.so.+"), None);
    assert_eq!(soname_major("libcudart.so.-1"), None);
    assert_eq!(soname_major("libcudart.so.1x"), None);
    assert_eq!(soname_major("libfoo.so.3"), None);
}

#[test]
fn test_scan_handles_carriage_returns_and_a_missing_last_line_feed() {
    let maps = "1-2 r /a/libcudart.so.1\r\n1-2 r /b/libcudart.so.2";
    assert_eq!(
        scan_mapped_runtimes(maps),
        vec!["/a/libcudart.so.1", "/b/libcudart.so.2"]
    );
    // Without a line feed the carriage return is part of the path.
    assert_eq!(scan_mapped_runtimes("1-2 r /a/libcudart.so.1\r"), vec!["/a/libcudart.so.1\r"]);
}

#[test]
fn test_search_stops_at_its_depth() {
    let files = touch(&["a/b/c/libcudart.so.13", "a/b/c/d/libcudart.so.12"]);
    assert_eq!(
        found_beneath(&files, &nvidia()),
        vec!["/site-packages/nvidia/a/b/c/libcudart.so.13"]
    );
}

#[test]
fn test_search_result_does_not_depend_on_listing_order() {
    let mut files = touch(&[
        "b/libcudart.so.12",
        "a/libcudart.so.12",
        "a-b/libcudart.so.12",
        "c/libcudart.so.13",
        "c/libcudart.so",
    ]);
    let found = found_beneath(&files, &nvidia());
    files.reverse();
    assert_eq!(found_beneath(&files, &nvidia()), found);
    assert_eq!(
        found,
        vec![
            "/site-packages/nvidia/c/libcudart.so.13",
            // Component by component: `a` comes before `a-b`.
            "/site-packages/nvidia/a/libcudart.so.12",
            "/site-packages/nvidia/a-b/libcudart.so.12",
            "/site-packages/nvidia/b/libcudart.so.12",
            "/site-packages/nvidia/c/libcudart.so",
        ]
    );
}

#[test]
fn test_search_orders_as_paths_do() {
    let mut names = vec![
        "/r/b/libcudart.so.1",
        "r/a/libcudart.so.1",
        "/r//a/libcudart.so.1",
        "./r/a/libcudart.so.1",
        "../r/libcudart.so.1",
        "/r/./a-/libcudart.so.1",
        "/r/../z/libcudart.so.1",
        "libcudart.so.1",
    ];
    let mut search = search_wheel_roots(&vec![]);
    let listed: Vec<DirEntry> = names
        .iter()
        .map(|n| DirEntry { path: n.to_string(), is_dir: false })
        .collect();
    search.visit(0, &listed);
    let found = search.finish();
    names.sort_by(|a, b| std::path::Path::new(a).cmp(std::path::Path::new(b)));
    assert_eq!(found, names);
}

#[test]
fn test_open_steps_of_a_path() {
    let candidate = Candidate { name: "/a/libcudart.so.13".into(), rung: Rung::AlreadyLoaded };
    let mut step = OpenStep::first(&candidate);
    assert!(matches!(step, OpenStep::Load));
    for i in 0..SYMBOL_COUNT {
        step = step.next(OpenEvent::Found);
        assert!(matches!(step, OpenStep::FindSymbol { index } if index == i));
    }
    assert!(matches!(step.next(OpenEvent::Found), OpenStep::Opened));
}

#[test]
fn test_open_steps_of_a_soname() {
    let candidate = Candidate { name: "libcudart.so.13".into(), rung: Rung::Soname };
    let step = OpenStep::first(&candidate);
    assert!(matches!(step, OpenStep::LoadPresent));
    let step = step.next(OpenEvent::Missing { message: Some("ignored".into()) });
    assert!(matches!(step, OpenStep::Load));
    let step = step.next(OpenEvent::Missing { message: None });
    assert!(matches!(step, OpenStep::Failed { reason } if reason == "dlopen failed"));
}

#[test]
fn test_open_failures() {
    let step = OpenStep::Load.next(OpenEvent::Missing { message: Some("no such file".into()) });
    assert!(matches!(step, OpenStep::Failed { reason } if reason == "no such file"));
    let step = OpenStep::FindSymbol { index: 3 }.next(OpenEvent::Missing { message: None });
    assert!(
        matches!(step, OpenStep::Failed { reason } if reason == "opened, but cudaFree is missing")
    );
    let bad = Candidate { name: "/a\0b".into(), rung: Rung::InstalledWheel };
    assert!(matches!(
        OpenStep::first(&bad),
        OpenStep::Failed { reason } if reason == "path contains an interior NUL byte"
    ));
    let names: Vec<&str> = (0..SYMBOL_COUNT).map(symbol_name).collect();
    assert_eq!(
        names,
        vec!["cudaHostRegister", "cudaHostUnregister", "cudaGetErrorName", "cudaFree"]
    );
}

#[test]
fn test_walk_reports_every_rung() {
    let mut walk = LadderWalk::new(candidates("", &vec![]), vec![]);
    let mut tried = Vec::new();
    while let Some(candidate) = walk.current() {
        tried.push(candidate.name.clone());
        let reason = format!("{}: cannot open", candidate.name);
        walk.failed(reason);
    }
    assert_eq!(tried, vec!["libcudart.so.13", "libcudart.so.12", "libcudart.so"]);
    let expected = "\
pin_host_memory=True but no CUDA runtime could be loaded. Probed, in order:
  - (none) [already-loaded scan]: this process has no CUDA runtime mapped
  - (none) [installed-wheel search]: no CUDA vendor package is importable
  - libcudart.so.13 [soname load]: libcudart.so.13: cannot open
  - libcudart.so.12 [soname load]: libcudart.so.12: cannot open
  - libcudart.so [soname load]: libcudart.so: cannot open
Install a CUDA runtime (for example the nvidia-cuda-runtime wheel), or construct the Server after your framework has initialised CUDA.";
    assert_eq!(walk.into_error().message(), expected);
}

#[test]
fn test_empty_rung_notes() {
    let roots = vec!["/a/nvidia".to_string(), "/b/nvidia".to_string()];
    assert_eq!(
        empty_rung_note(Rung::InstalledWheel, &roots),
        "(none) [installed-wheel search]: no runtime found beneath /a/nvidia, /b/nvidia"
    );
    assert_eq!(
        empty_rung_note(Rung::Soname, &roots),
        "(none) [soname load]: no soname candidates"
    );
    assert_eq!(Rung::AlreadyLoaded.label(), "already-loaded scan");
}

#[test]
fn test_registration_message() {
    let mut run = pin_all(vec![Region { addr: 16, len: 1024 }]);
    drive(&mut run, 1);
    let err = run.error(Some("cudaErrorInvalidValue".into())).unwrap();
    assert_eq!(
        err.message(),
        "pin_host_memory=True but cudaHostRegister failed with cudaErrorInvalidValue (1) on ring \
         buffer 0 (1024 bytes). Registrations made before the failure have been rolled back. A \
         usable CUDA device must be visible to this process; construct the Server after CUDA is \
         initialised."
    );
}

#[test]
fn test_error_without_a_name() {
    assert_eq!(error_name(None, 999), "unrecognised CUDA error 999");
    assert_eq!(error_name(None, -1), "unrecognised CUDA error -1");
    assert_eq!(error_name(None, i32::MIN), "unrecognised CUDA error -2147483648");
    assert_eq!(error_name(None, 0), "unrecognised CUDA error 0");
}

#[test]
fn test_empty_regions_are_passed_over() {
    let regions = vec![
        Region { addr: 1, len: 0 },
        Region { addr: 2, len: 8 },
        Region { addr: 3, len: 0 },
        Region { addr: 4, len: 8 },
    ];
    assert_eq!(unpin_all(&regions), vec![1, 3]);
    let mut run = pin_all(regions.clone());
    let calls = drive(&mut run, 0);
    assert_eq!(calls.registered, vec![2, 4]);
    let mut run = pin_all(regions);
    let calls = drive(&mut run, 2);
    assert_eq!(calls.unregistered, vec![2]);
    assert_eq!(run.phase(), PinPhase::Failed { failed: 3, code: 1 });
}

#[test]
fn test_nothing_to_pin_is_pinned() {
    let mut run = pin_all(vec![]);
    let calls = drive(&mut run, 0);
    assert_eq!(calls.initialised, 1);
    assert_eq!(run.phase(), PinPhase::Pinned);
    assert_eq!(CUDA_HOST_REGISTER_PORTABLE, 1);
}

#[test]
fn test_scanning_more_adds_what_is_new() {
    let first = "1-2 r--p 0 0:0 1 /a/libcudart.so.13\n";
    let more = "3-4 r--p 0 0:0 2 /b/libcudart.so.12\n5-6 r--p 0 0:0 1 /a/libcudart.so.13\n";
    assert_eq!(
        scan_mapped_runtimes(&format!("{first}{more}")),
        vec!["/a/libcudart.so.13", "/b/libcudart.so.12"]
    );
    assert_eq!(
        scan_mapped_runtimes(&format!("{MAPS_FIXTURE}{MAPS_FIXTURE}")),
        scan_mapped_runtimes(MAPS_FIXTURE)
    );
}

#[test]
fn test_ladder_rung_by_rung() {
    let wheels = vec![
        "/w/libcudart.so.13".to_string(),
        "/opt/my libs/libcudart.so.12".to_string(),
        "/w/libcudart.so.12".to_string(),
    ];
    let mut expected: Vec<(String, Rung)> = scan_mapped_runtimes(MAPS_FIXTURE)
        .into_iter()
        .map(|name| (name, Rung::AlreadyLoaded))
        .collect();
    assert_eq!(expected.len(), 3);
    expected.push(("/w/libcudart.so.13".to_string(), Rung::InstalledWheel));
    expected.push(("/w/libcudart.so.12".to_string(), Rung::InstalledWheel));
    for name in ["libcudart.so.13", "libcudart.so.12", "libcudart.so"] {
        expected.push((name.to_string(), Rung::Soname));
    }
    let ladder: Vec<(String, Rung)> = candidates(MAPS_FIXTURE, &wheels)
        .into_iter()
        .map(|c| (c.name, c.rung))
        .collect();
    assert_eq!(ladder, expected);
}

#[test]
fn test_the_same_roots_again_lead_to_the_same_ladder() {
    let files = touch(&["cu13/lib/libcudart.so.13", "cuda_runtime/lib/libcudart.so.12"]);
    let twice: Vec<String> = nvidia().into_iter().chain(nvidia()).collect();
    let once = found_beneath(&files, &nvidia());
    assert_eq!(once.len(), 2);
    assert_eq!(found_beneath(&files, &twice).len(), 4);
    let names = |libs: Vec<String>| -> Vec<String> {
        candidates("", &libs).into_iter().map(|c| c.name).collect()
    };
    assert_eq!(names(found_beneath(&files, &twice)), names(once));
}

#[test]
fn test_walk_takes_the_first_that_opens() {
    let mut walk = LadderWalk::new(candidates(MAPS_FIXTURE, &vec![]), vec![]);
    let opens = "/opt/my libs/libcudart.so.12";
    let mut tried = 0;
    while walk.current().unwrap().name != opens {
        walk.failed("no".to_string());
        tried += 1;
    }
    assert_eq!(tried, 1);
}

#[test]
fn test_ladder_after_a_search() {
    let files = touch(&["cu13/lib/libcudart.so.13", "libcudart.so.12", "libcudart.so"]);
    let libs = found_beneath(&files, &nvidia());
    let ladder: Vec<String> = candidates("", &libs).into_iter().map(|c| c.name).collect();
    assert_eq!(
        ladder,
        vec![
            "/site-packages/nvidia/cu13/lib/libcudart.so.13",
            "/site-packages/nvidia/libcudart.so.12",
            "/site-packages/nvidia/libcudart.so",
            "libcudart.so.13",
            "libcudart.so.12",
            "libcudart.so",
        ]
    );
}

use boa_fapi::clone_bridge::{CloneBridgeDescriptor, CLONE_ENCODING_VERSION};
use boa_fapi::environment::FileApiEnvironment;
use boa_fapi::error::type_error;
use boa_fapi::extension::{names_to_check, names_to_install, Setup};
use boa_fapi::ids::{FileApiContextId, IdCounter};
use boa_fapi::install::{flags_of_globals, InstallAction, Installation, RegisterStart};
use boa_fapi::limits::FileApiLimits;
use boa_fapi::{FileApiExtension, RegisterError};

/// Installs into `globals`; the action number `fail_at` fails, and so does
/// `fail_again`.
fn install(
    mut state: Installation,
    globals: &mut Vec<String>,
    fail_at: usize,
    fail_again: usize,
) -> Installation {
    let mut count = 0;
    loop {
        let action = state.next();
        let failed = count == fail_at || count == fail_again;
        match action {
            InstallAction::Finished => return state,
            InstallAction::Define(name, flags) if !failed => {
                assert_eq!(flags, flags_of_globals());
                globals.push(name.to_string());
            }
            InstallAction::Delete(name) if !failed => globals.retain(|other| other != name),
            _ => {}
        }
        let outcome = if failed { Err(type_error("frozen")) } else { Ok(()) };
        state = state.report(outcome);
        count += 1;
    }
}

#[test]
fn all_names_are_installed() {
    let mut globals = vec!["Array".to_string()];
    let state = install(Installation::begin(true, true), &mut globals, 99, 99);
    assert_eq!(
        globals,
        [
            "Array",
            "Blob",
            "File",
            "ReadableStream",
            "ReadableStreamDefaultReader",
            "EventTarget",
            "Event",
            "ProgressEvent",
            "DOMException",
            "FileReader",
            "FileReaderSync",
            "URL"
        ]
    );
    assert!(matches!(state.outcome(), Some(Ok(()))));
    assert_eq!(names_to_install(false, false).len(), 9);
    assert!(names_to_install(true, false).contains(&"FileReaderSync"));
    assert!(!names_to_install(true, false).contains(&"URL"));
    assert!(names_to_install(false, true).contains(&"URL"));
    assert!(!names_to_install(false, true).contains(&"FileReaderSync"));
    assert!(!names_to_install(true, true).contains(&"FileList"));
    assert_eq!(names_to_check(false, false).len(), 10);
    assert_eq!(names_to_check(true, true).len(), 12);
}

#[test]
fn a_failed_installation_leaves_nothing() {
    for fail_at in 0..11 {
        let mut globals = vec!["Array".to_string()];
        let state = install(Installation::begin(true, true), &mut globals, fail_at, 99);
        assert_eq!(globals, ["Array"]);
        let extension = FileApiExtension::builder().build(&mut IdCounter::new());
        assert!(matches!(
            extension.register(state, FileApiContextId::from_raw(1)),
            Err(RegisterError::Js(error)) if error.message == "frozen"
        ));
    }
}

#[test]
fn a_failed_deletion_ends_the_rollback() {
    let mut globals = Vec::new();
    let state = install(Installation::begin(false, false), &mut globals, 2, 4);
    assert_eq!(globals, ["File"]);
    assert!(matches!(state.outcome(), Some(Err(RegisterError::Js(_)))));
}

#[test]
fn a_registration_has_its_own_context() {
    let mut identities = IdCounter::new();
    let mut contexts = IdCounter::new();
    let extension = FileApiExtension::builder()
        .environment(FileApiEnvironment::SharedWorker)
        .build(&mut identities);
    let mut ids = Vec::new();
    for _ in 0..2 {
        let start = extension
            .begin_register(None, &None, true, &Vec::new(), &mut contexts)
            .expect("free");
        let RegisterStart::Install(state, context_id) = start else {
            panic!("not registered yet");
        };
        let state = install(state, &mut Vec::new(), 99, 99);
        let handle = extension.register(state, context_id).expect("handle");
        assert_eq!(handle.environment(), FileApiEnvironment::SharedWorker);
        assert!(!handle.is_shutdown());
        assert!(!handle.has_pending_io());
        ids.push(handle.bridge.context_id().get());
    }
    assert_eq!(ids, [1, 2]);
}

#[test]
fn a_spent_counter_is_noticed_before_anything_is_installed() {
    let extension = FileApiExtension::builder().build(&mut IdCounter::new());
    let mut spent = IdCounter::starting_at(u64::MAX);
    spent.issue();
    assert!(matches!(
        extension.begin_register(None, &None, true, &Vec::new(), &mut spent),
        Err(RegisterError::IoIdsExhausted)
    ));
    let taken = vec!["Blob".to_string()];
    assert!(matches!(
        extension.begin_register(None, &None, true, &taken, &mut spent),
        Err(RegisterError::NameConflict(name)) if name == "Blob"
    ));
}

#[test]
fn settings_are_tested_in_order() {
    let mut ids = IdCounter::new();
    let extension = FileApiExtension::builder().build(&mut ids);
    assert_eq!(extension.check_setup(None, &None).expect("fresh"), Setup::Fresh);
    let own = extension.config.identity;
    assert_eq!(extension.check_setup(Some(own), &None).expect("own"), Setup::Registered);
    let other = FileApiExtension::builder().build(&mut ids);
    assert!(matches!(
        other.check_setup(Some(own), &None),
        Err(RegisterError::AlreadyRegistered)
    ));
    let no_streams = FileApiExtension::builder()
        .streams_shim(false)
        .dom_shim(false)
        .build(&mut ids);
    assert!(matches!(
        no_streams.check_setup(None, &None),
        Err(RegisterError::StreamsShimDisabled)
    ));
    let no_dom = FileApiExtension::builder().dom_shim(false).origin("").build(&mut ids);
    assert!(matches!(no_dom.check_setup(None, &None), Err(RegisterError::DomShimDisabled)));
    let bridge = Some(CloneBridgeDescriptor {
        name: "old".to_string(),
        version: CLONE_ENCODING_VERSION + 1,
    });
    let cloning = FileApiExtension::builder().structured_clone(true).build(&mut ids);
    assert!(matches!(
        cloning.check_setup(None, &bridge),
        Err(RegisterError::CloneBridgeIncompatible(name)) if name == "old"
    ));
    assert!(cloning.check_setup(None, &None).is_ok());
    let unlimited = FileApiExtension::builder()
        .limits(FileApiLimits {
            default_chunk_size: 0,
            ..FileApiLimits::default()
        })
        .build(&mut ids);
    assert!(matches!(unlimited.check_setup(None, &None), Err(RegisterError::Js(_))));
    let nowhere = FileApiExtension::builder().origin("").build(&mut ids);
    assert!(matches!(
        nowhere.check_setup(None, &None),
        Err(RegisterError::Js(error)) if error.message == "invalid serialized origin"
    ));
    let mut spent = IdCounter::starting_at(u64::MAX);
    spent.issue();
    let late = FileApiExtension::builder().build(&mut spent);
    assert!(matches!(late.check_setup(None, &None), Err(RegisterError::IoIdsExhausted)));
}

#[test]
fn taken_names_are_refused() {
    let mut ids = IdCounter::new();
    let extension = FileApiExtension::builder().url_shim(true).build(&mut ids);
    assert!(extension.check_global(true, &vec!["Array".to_string()]).is_ok());
    assert!(matches!(
        extension.check_global(false, &Vec::new()),
        Err(RegisterError::GlobalNotExtensible)
    ));
    let mut contexts = IdCounter::new();
    let taken = vec!["URL".to_string(), "FileList".to_string()];
    let error = extension.check_global(true, &taken).expect_err("taken");
    assert!(matches!(&error, RegisterError::NameConflict(name) if name == "FileList"));
    assert!(matches!(
        extension.begin_register(None, &None, true, &taken, &mut contexts),
        Err(RegisterError::NameConflict(name)) if name == "FileList"
    ));
    let own = Some(extension.config.identity);
    assert!(matches!(
        extension.begin_register(own, &None, false, &taken, &mut contexts),
        Ok(RegisterStart::Registered)
    ));
    assert_eq!(contexts.issue(), Some(1));
    let start = extension
        .begin_register(None, &None, true, &Vec::new(), &mut contexts)
        .expect("free");
    let RegisterStart::Install(state, context_id) = start else {
        panic!("not registered yet");
    };
    assert_eq!(context_id.get(), 2);
    let mut globals = Vec::new();
    install(state, &mut globals, 99, 99);
    assert_eq!(globals.len(), 10);
    let plain = FileApiExtension::builder().url_shim(false).build(&mut ids);
    assert!(plain.check_global(true, &vec!["URL".to_string()]).is_ok());
    assert!(plain.check_global(true, &vec!["FileReaderSync".to_string()]).is_ok());
}

#[test]
fn a_builder_keeps_its_settings() {
    let mut ids = IdCounter::new();
    let extension = FileApiExtension::builder()
        .origin("https://a.example")
        .partition(3)
        .nonce(4)
        .environment(FileApiEnvironment::DedicatedWorker)
        .build(&mut ids);
    let key = extension.copy().config.environment_key();
    assert_eq!((key.origin.as_str(), key.partition, key.nonce), ("https://a.example", 3, 4));
    let again = FileApiExtension::builder().build(&mut ids);
    assert!(again.config.identity != extension.config.identity);
}

#[test]
fn globals_are_writable_and_configurable_but_not_enumerable() {
    let flags = flags_of_globals();
    assert!(flags.writable);
    assert!(!flags.enumerable);
    assert!(flags.configurable);
    let state = Installation::begin(false, false);
    assert!(matches!(state.next(), InstallAction::Define("Blob", first) if first == flags));
}

#[test]
fn a_registered_context_starts_empty() {
    let limits = FileApiLimits {
        max_concurrent_reads_per_global: 0,
        ..FileApiLimits::default()
    };
    let extension = FileApiExtension::builder()
        .limits(limits)
        .build(&mut IdCounter::new());
    let state = install(Installation::begin(false, true), &mut Vec::new(), 99, 99);
    let mut handle = extension
        .register(state, FileApiContextId::from_raw(7))
        .expect("handle");
    assert!(handle.readers.is_empty() && handle.reader_ops.ops.is_empty());
    assert!(handle.streams.is_empty() && handle.stream_ops.ops.is_empty());
    assert!(handle.reads.reads.is_empty() && handle.cleanups.is_empty());
    assert!(handle.budget.is_none());
    assert_eq!(handle.urls.len(), 0);
    assert_eq!(handle.bridge.reserve().expect("one read").get(), 1);
    assert!(handle.bridge.reserve().is_err(), "there is room for one read");
}

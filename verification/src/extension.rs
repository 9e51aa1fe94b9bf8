//! Building and registering the extension.

use vstd::prelude::*;

use crate::clone_bridge::{bridge_compatible, CLONE_ENCODING_VERSION};
use crate::environment::{is_origin, origin_valid, EnvironmentKey};
use crate::error::{
    range_error, type_error, FileApiError, JsError, JsErrorKind, RegisterError, RegisterFailure,
    ResourceLimitKind,
};
use crate::ids::{issue_step, IdCounter, RegistrationIdentity};
use crate::limits::{default_limits, FileApiLimits};
use crate::text::same_text;

pub use crate::clone_bridge::{CloneAdapter, CloneBridgeDescriptor};
pub use crate::environment::FileApiEnvironment;
pub use crate::url_shim::{OsEntropy, UrlEntropySource};

verus! {

/// Options of a file that the host makes.
#[derive(Debug, Clone)]
pub struct HostFileOptions {
    /// The media type; it is normalized.
    pub media_type: String,
    /// The time of the last change; the clock is asked where there is none.
    pub last_modified: Option<i64>,
}

impl Default for HostFileOptions {
    fn default() -> (options: HostFileOptions)
        ensures
            options.media_type@ == Seq::<char>::empty(),
            options.last_modified is None,
    {
        let media_type = String::new();
        proof {
            reveal_strlit("");
            assert(media_type@ =~= Seq::<char>::empty());
        }
        HostFileOptions { media_type, last_modified: None }
    }
}

/// The settings of an extension.
#[derive(Debug)]
pub struct ExtensionConfig {
    /// The identity; one for each built extension.
    pub identity: RegistrationIdentity,
    /// The ceilings.
    pub limits: FileApiLimits,
    /// Whether the streams shim is wanted.
    pub streams_shim: bool,
    /// Whether the DOM shim is wanted.
    pub dom_shim: bool,
    /// Whether the `URL` namespace is wanted.
    pub url_shim: bool,
    /// Whether structured clones are wanted.
    pub structured_clone: bool,
    /// The kind of environment.
    pub environment: FileApiEnvironment,
    /// The serialized origin.
    pub origin: String,
    /// The storage partition.
    pub partition: u64,
    /// The nonce of the global.
    pub nonce: u64,
}

/// Builder for a [`FileApiExtension`].
#[derive(Debug)]
pub struct FileApiExtensionBuilder {
    limits: Option<FileApiLimits>,
    streams_shim: Option<bool>,
    dom_shim: Option<bool>,
    url_shim: Option<bool>,
    structured_clone: Option<bool>,
    environment: Option<FileApiEnvironment>,
    origin: Option<String>,
    partition: Option<u64>,
    nonce: Option<u64>,
}

/// The settings of a builder: those that were given, and the defaults.
pub struct BuilderView {
    /// The ceilings.
    pub limits: FileApiLimits,
    /// Whether the streams shim is wanted.
    pub streams_shim: bool,
    /// Whether the DOM shim is wanted.
    pub dom_shim: bool,
    /// Whether the `URL` namespace is wanted.
    pub url_shim: bool,
    /// Whether structured clones are wanted.
    pub structured_clone: bool,
    /// The kind of environment.
    pub environment: FileApiEnvironment,
    /// The serialized origin.
    pub origin: Seq<char>,
    /// The storage partition.
    pub partition: u64,
    /// The nonce of the global.
    pub nonce: u64,
}

/// The default settings.
pub open spec fn default_settings() -> BuilderView {
    BuilderView {
        limits: default_limits(),
        streams_shim: true,
        dom_shim: true,
        url_shim: true,
        structured_clone: true,
        environment: FileApiEnvironment::Window,
        origin: "https://localhost"@,
        partition: 0,
        nonce: 0,
    }
}

/// The given value, or the default.
pub open spec fn given_or<T>(given: Option<T>, default: T) -> T {
    match given {
        Some(value) => value,
        None => default,
    }
}

impl View for FileApiExtensionBuilder {
    type V = BuilderView;

    closed spec fn view(&self) -> BuilderView {
        BuilderView {
            limits: given_or(self.limits, default_limits()),
            streams_shim: given_or(self.streams_shim, true),
            dom_shim: given_or(self.dom_shim, true),
            url_shim: given_or(self.url_shim, true),
            structured_clone: given_or(self.structured_clone, true),
            environment: given_or(self.environment, FileApiEnvironment::Window),
            origin: match self.origin {
                Some(origin) => origin@,
                None => "https://localhost"@,
            },
            partition: given_or(self.partition, 0),
            nonce: given_or(self.nonce, 0),
        }
    }
}

impl FileApiExtensionBuilder {
    /// A builder with the default settings.
    pub fn new() -> (builder: FileApiExtensionBuilder)
        ensures
            builder@ == default_settings(),
    {
        FileApiExtensionBuilder {
            limits: None,
            streams_shim: None,
            dom_shim: None,
            url_shim: None,
            structured_clone: None,
            environment: None,
            origin: None,
            partition: None,
            nonce: None,
        }
    }

    /// Sets the ceilings.
    pub fn limits(&mut self, limits: FileApiLimits) -> (builder: &mut Self)
        ensures
            builder@ == (BuilderView { limits, ..old(self)@ }),
            *final(self) == *final(builder),
    {
        self.limits = Some(limits);
        self
    }

    /// Turns the streams shim on or off; without it a registration fails.
    pub fn streams_shim(&mut self, enabled: bool) -> (builder: &mut Self)
        ensures
            builder@ == (BuilderView { streams_shim: enabled, ..old(self)@ }),
            *final(self) == *final(builder),
    {
        self.streams_shim = Some(enabled);
        self
    }

    /// Turns the DOM shim on or off; without it a registration fails.
    pub fn dom_shim(&mut self, enabled: bool) -> (builder: &mut Self)
        ensures
            builder@ == (BuilderView { dom_shim: enabled, ..old(self)@ }),
            *final(self) == *final(builder),
    {
        self.dom_shim = Some(enabled);
        self
    }

    /// Turns the `URL` namespace on or off; without it only script loses the
    /// blob URLs.
    pub fn url_shim(&mut self, enabled: bool) -> (builder: &mut Self)
        ensures
            builder@ == (BuilderView { url_shim: enabled, ..old(self)@ }),
            *final(self) == *final(builder),
    {
        self.url_shim = Some(enabled);
        self
    }

    /// Turns structured clones on or off.
    pub fn structured_clone(&mut self, enabled: bool) -> (builder: &mut Self)
        ensures
            builder@ == (BuilderView { structured_clone: enabled, ..old(self)@ }),
            *final(self) == *final(builder),
    {
        self.structured_clone = Some(enabled);
        self
    }

    /// Sets the kind of environment.
    pub fn environment(&mut self, environment: FileApiEnvironment) -> (builder: &mut Self)
        ensures
            builder@ == (BuilderView { environment, ..old(self)@ }),
            *final(self) == *final(builder),
    {
        self.environment = Some(environment);
        self
    }

    /// Sets the serialized origin; a registration tests it.
    pub fn origin(&mut self, origin: &str) -> (builder: &mut Self)
        ensures
            builder@ == (BuilderView { origin: origin@, ..old(self)@ }),
            *final(self) == *final(builder),
    {
        self.origin = Some(origin.to_owned());
        self
    }

    /// Sets the storage partition.
    pub fn partition(&mut self, partition: u64) -> (builder: &mut Self)
        ensures
            builder@ == (BuilderView { partition, ..old(self)@ }),
            *final(self) == *final(builder),
    {
        self.partition = Some(partition);
        self
    }

    /// Sets the nonce of the global.
    pub fn nonce(&mut self, nonce: u64) -> (builder: &mut Self)
        ensures
            builder@ == (BuilderView { nonce, ..old(self)@ }),
            *final(self) == *final(builder),
    {
        self.nonce = Some(nonce);
        self
    }

    /// Builds an extension under an identity of its own.
    pub fn build(&self, identities: &mut IdCounter) -> (extension: FileApiExtension)
        ensures
            extension.config@.settings == self@,
            !old(identities).exhausted() ==> issue_step(
                old(identities).spec_next(),
                extension.config.identity.spec_get(),
                final(identities).spec_next(),
            ),
            old(identities).exhausted() ==> {
                &&& extension.config.identity.spec_get() == u64::MAX
                &&& final(identities).spec_next() == u64::MAX
            },
    {
        let identity = RegistrationIdentity::fresh(identities);
        let limits = match self.limits {
            Some(limits) => limits,
            None => FileApiLimits::default(),
        };
        let origin = match &self.origin {
            Some(origin) => origin.as_str().to_owned(),
            None => "https://localhost".to_owned(),
        };
        let environment = match self.environment {
            Some(environment) => environment,
            None => FileApiEnvironment::Window,
        };
        FileApiExtension {
            config: ExtensionConfig {
                identity,
                limits,
                streams_shim: flag_or_true(self.streams_shim),
                dom_shim: flag_or_true(self.dom_shim),
                url_shim: flag_or_true(self.url_shim),
                structured_clone: flag_or_true(self.structured_clone),
                environment,
                origin,
                partition: number_or_zero(self.partition),
                nonce: number_or_zero(self.nonce),
            },
        }
    }
}

/// The given flag; `true` where none was given.
fn flag_or_true(given: Option<bool>) -> (flag: bool)
    ensures
        flag == given_or(given, true),
{
    match given {
        Some(flag) => flag,
        None => true,
    }
}

/// The given number; zero where none was given.
fn number_or_zero(given: Option<u64>) -> (number: u64)
    ensures
        number == given_or(given, 0),
{
    match given {
        Some(number) => number,
        None => 0,
    }
}

/// The contents of an [`ExtensionConfig`].
pub struct ConfigView {
    /// The identity of the extension.
    pub identity: RegistrationIdentity,
    /// The settings.
    pub settings: BuilderView,
}

impl View for ExtensionConfig {
    type V = ConfigView;

    open spec fn view(&self) -> ConfigView {
        ConfigView {
            identity: self.identity,
            settings: BuilderView {
                limits: self.limits,
                streams_shim: self.streams_shim,
                dom_shim: self.dom_shim,
                url_shim: self.url_shim,
                structured_clone: self.structured_clone,
                environment: self.environment,
                origin: self.origin@,
                partition: self.partition,
                nonce: self.nonce,
            },
        }
    }
}

impl ExtensionConfig {
    /// A copy of the settings, under the same identity.
    pub fn copy(&self) -> (config: ExtensionConfig)
        ensures
            config@ == self@,
    {
        ExtensionConfig {
            identity: self.identity,
            limits: self.limits,
            streams_shim: self.streams_shim,
            dom_shim: self.dom_shim,
            url_shim: self.url_shim,
            structured_clone: self.structured_clone,
            environment: self.environment,
            origin: self.origin.as_str().to_owned(),
            partition: self.partition,
            nonce: self.nonce,
        }
    }

    /// The key of the environment.
    pub fn environment_key(&self) -> (key: EnvironmentKey)
        ensures
            key@ == (self.origin@, self.partition, self.nonce),
    {
        EnvironmentKey {
            origin: self.origin.as_str().to_owned(),
            partition: self.partition,
            nonce: self.nonce,
        }
    }
}

/// The File API extension.
#[derive(Debug)]
pub struct FileApiExtension {
    /// The settings.
    pub config: ExtensionConfig,
}

impl FileApiExtension {
    /// A builder with the default settings.
    pub fn builder() -> (builder: FileApiExtensionBuilder)
        ensures
            builder@ == default_settings(),
    {
        FileApiExtensionBuilder::new()
    }

    /// The same extension again: a clone keeps the identity.
    pub fn copy(&self) -> (extension: FileApiExtension)
        ensures
            extension.config@ == self.config@,
    {
        FileApiExtension { config: self.config.copy() }
    }
}

/// Where a registration stands after the settings were tested.
#[derive(Clone, Copy, Debug, PartialEq, Eq, Structural)]
pub enum Setup {
    /// This extension is registered in the context already.
    Registered,
    /// The context has no registration, and the settings are sound.
    Fresh,
}

/// Why a registration is refused for its settings, if it is; `registered` is
/// the identity that the context has, and `bridge` the name and version of the
/// clone bridge.
pub open spec fn setup_failure(
    config: ExtensionConfig,
    registered: Option<RegistrationIdentity>,
    bridge: Option<(Seq<char>, u32)>,
) -> Option<RegisterFailure> {
    if config.identity.spec_get() == u64::MAX {
        Some(RegisterFailure::IoIdsExhausted)
    } else if registered is Some {
        if registered == Some(config.identity) {
            None
        } else {
            Some(RegisterFailure::AlreadyRegistered)
        }
    } else if !config.streams_shim {
        Some(RegisterFailure::StreamsShimDisabled)
    } else if !config.dom_shim {
        Some(RegisterFailure::DomShimDisabled)
    } else if config.structured_clone && foreign_bridge(bridge) is Some {
        Some(RegisterFailure::CloneBridgeIncompatible(foreign_bridge(bridge)->0))
    } else if !config.limits.chunk_size_valid() {
        Some(
            RegisterFailure::Js(
                limits_failure(FileApiError::ResourceLimit(ResourceLimitKind::MaterializeBytes)),
            ),
        )
    } else if !is_origin(config.origin@) {
        Some(RegisterFailure::Js((JsErrorKind::Type, "invalid serialized origin"@)))
    } else {
        None
    }
}

/// The name of a bridge that speaks another version.
pub open spec fn foreign_bridge(bridge: Option<(Seq<char>, u32)>) -> Option<Seq<char>> {
    match bridge {
        Some((name, version)) => if version != CLONE_ENCODING_VERSION {
            Some(name)
        } else {
            None
        },
        None => None,
    }
}

/// The name and version of a bridge.
pub open spec fn bridge_view(bridge: Option<CloneBridgeDescriptor>) -> Option<(Seq<char>, u32)> {
    match bridge {
        Some(descriptor) => Some((descriptor.name@, descriptor.version)),
        None => None,
    }
}

/// The script error of refused ceilings: a resource limit is a range error.
pub open spec fn limits_failure(error: FileApiError) -> (JsErrorKind, Seq<char>) {
    (
        if error is ResourceLimit {
            JsErrorKind::Range
        } else {
            JsErrorKind::Type
        },
        "invalid FileApiLimits: "@ + error.text(),
    )
}

/// The script error of refused ceilings.
pub fn limits_error(error: FileApiError) -> (js: JsError)
    ensures
        js@ == limits_failure(error),
{
    let mut message = "invalid FileApiLimits: ".to_owned();
    message.push_str(error.message());
    match error {
        FileApiError::ResourceLimit(_) => range_error(message.as_str()),
        _ => type_error(message.as_str()),
    }
}

impl FileApiExtension {
    /// Tests the settings before anything of the context is touched.
    ///
    /// A context has one registration: the same extension finds its own again,
    /// any other is refused.
    pub fn check_setup(
        &self,
        registered: Option<RegistrationIdentity>,
        bridge: &Option<CloneBridgeDescriptor>,
    ) -> (result: Result<Setup, RegisterError>)
        ensures
            ({
                let failure = setup_failure(self.config, registered, bridge_view(*bridge));
                match result {
                    Ok(setup) => failure is None && setup == if registered is Some {
                        Setup::Registered
                    } else {
                        Setup::Fresh
                    },
                    Err(error) => failure == Some(error@),
                }
            }),
    {
        let config = &self.config;
        if config.identity.is_exhausted() {
            return Err(RegisterError::IoIdsExhausted);
        }
        match registered {
            Some(identity) => {
                if identity == config.identity {
                    return Ok(Setup::Registered);
                }
                return Err(RegisterError::AlreadyRegistered);
            },
            None => {},
        }
        if !config.streams_shim {
            return Err(RegisterError::StreamsShimDisabled);
        }
        if !config.dom_shim {
            return Err(RegisterError::DomShimDisabled);
        }
        if config.structured_clone {
            match bridge {
                Some(descriptor) => {
                    if !bridge_compatible(descriptor) {
                        return Err(
                            RegisterError::CloneBridgeIncompatible(
                                descriptor.name.as_str().to_owned(),
                            ),
                        );
                    }
                },
                None => {},
            }
        }
        match config.limits.validate() {
            Ok(_) => {},
            Err(error) => {
                return Err(RegisterError::Js(limits_error(error)));
            },
        }
        if !origin_valid(config.origin.as_str()) {
            return Err(RegisterError::Js(type_error("invalid serialized origin")));
        }
        Ok(Setup::Fresh)
    }
}

/// The names that must be free: those of the interfaces, and where they are
/// installed that of the synchronous reader and that of the URL namespace.
pub open spec fn required_names(sync: bool, url: bool) -> Seq<Seq<char>> {
    let interfaces = seq![
        "Blob"@,
        "File"@,
        "FileList"@,
        "ReadableStream"@,
        "ReadableStreamDefaultReader"@,
        "EventTarget"@,
        "Event"@,
        "ProgressEvent"@,
        "DOMException"@,
        "FileReader"@,
    ];
    interfaces + optional_names(sync, url)
}

/// The names that only some registrations install.
pub open spec fn optional_names(sync: bool, url: bool) -> Seq<Seq<char>> {
    let reader = if sync {
        seq!["FileReaderSync"@]
    } else {
        Seq::empty()
    };
    let namespace = if url {
        seq!["URL"@]
    } else {
        Seq::empty()
    };
    reader + namespace
}

/// The names that are installed: a list of files has no constructor.
pub open spec fn installed_names(sync: bool, url: bool) -> Seq<Seq<char>> {
    let interfaces = seq![
        "Blob"@,
        "File"@,
        "ReadableStream"@,
        "ReadableStreamDefaultReader"@,
        "EventTarget"@,
        "Event"@,
        "ProgressEvent"@,
        "DOMException"@,
        "FileReader"@,
    ];
    interfaces + optional_names(sync, url)
}

/// The texts of names.
pub open spec fn name_views(names: Seq<&'static str>) -> Seq<Seq<char>> {
    names.map_values(|name: &'static str| name@)
}

/// The texts of property names.
pub open spec fn owned_names(names: Seq<String>) -> Seq<Seq<char>> {
    names.map_values(|name: String| name@)
}

/// Appends the names that only some registrations install.
fn push_optional(names: &mut Vec<&'static str>, sync: bool, url: bool)
    ensures
        name_views(final(names)@) == name_views(old(names)@) + optional_names(sync, url),
{
    let ghost before = name_views(names@);
    if sync {
        names.push("FileReaderSync");
        assert(name_views(names@) =~= before.push("FileReaderSync"@));
    }
    let ghost middle = name_views(names@);
    if url {
        names.push("URL");
        assert(name_views(names@) =~= middle.push("URL"@));
    }
    assert(name_views(names@) =~= before + optional_names(sync, url));
}

/// The names that must be free.
pub fn names_to_check(sync: bool, url: bool) -> (names: Vec<&'static str>)
    ensures
        name_views(names@) == required_names(sync, url),
{
    let mut names: Vec<&'static str> = Vec::new();
    names.push("Blob");
    names.push("File");
    names.push("FileList");
    names.push("ReadableStream");
    names.push("ReadableStreamDefaultReader");
    names.push("EventTarget");
    names.push("Event");
    names.push("ProgressEvent");
    names.push("DOMException");
    names.push("FileReader");
    let ghost interfaces = name_views(names@);
    push_optional(&mut names, sync, url);
    assert(name_views(names@) =~= required_names(sync, url)) by {
        assert(interfaces =~= required_names(false, false));
    }
    names
}

/// The names that are installed, in order.
pub fn names_to_install(sync: bool, url: bool) -> (names: Vec<&'static str>)
    ensures
        name_views(names@) == installed_names(sync, url),
{
    let mut names: Vec<&'static str> = Vec::new();
    names.push("Blob");
    names.push("File");
    names.push("ReadableStream");
    names.push("ReadableStreamDefaultReader");
    names.push("EventTarget");
    names.push("Event");
    names.push("ProgressEvent");
    names.push("DOMException");
    names.push("FileReader");
    let ghost interfaces = name_views(names@);
    push_optional(&mut names, sync, url);
    assert(name_views(names@) =~= installed_names(sync, url)) by {
        assert(interfaces =~= installed_names(false, false));
    }
    names
}

/// Whether the first of `names` that is taken stands at `at`.
pub open spec fn first_taken(names: Seq<Seq<char>>, taken: Seq<Seq<char>>, at: int) -> bool {
    &&& 0 <= at < names.len()
    &&& taken.contains(names[at])
    &&& forall|i: int| 0 <= i < at ==> !taken.contains(#[trigger] names[i])
}

/// Whether none of `names` is taken.
pub open spec fn none_taken(names: Seq<Seq<char>>, taken: Seq<Seq<char>>) -> bool {
    forall|i: int| 0 <= i < names.len() ==> !taken.contains(#[trigger] names[i])
}

/// Whether a name is among the own names of an object.
fn is_taken(name: &str, taken: &Vec<String>) -> (found: bool)
    ensures
        found == owned_names(taken@).contains(name@),
{
    let ghost views = owned_names(taken@);
    let mut i: usize = 0;
    while i < taken.len()
        invariant
            views == owned_names(taken@),
            i <= taken@.len(),
            forall|k: int| 0 <= k < i ==> #[trigger] views[k] != name@,
        decreases taken@.len() - i,
    {
        assert(views[i as int] == taken@[i as int]@);
        if same_text(taken[i].as_str(), name) {
            return true;
        }
        i = i + 1;
    }
    assert(!views.contains(name@));
    false
}

impl FileApiExtension {
    /// Tests the global object before anything is installed: it must be
    /// extensible, and none of the names may be its own already.
    pub fn check_global(&self, extensible: bool, own_names: &Vec<String>) -> (result: Result<
        (),
        RegisterError,
    >)
        ensures
            ({
                let names = required_names(
                    self.config.environment.reads_synchronously(),
                    self.config.url_shim,
                );
                let taken = owned_names(own_names@);
                match result {
                    Ok(_) => extensible && none_taken(names, taken),
                    Err(error) => if !extensible {
                        error@ == RegisterFailure::GlobalNotExtensible
                    } else {
                        exists|at: int| #[trigger]
                            first_taken(names, taken, at) && error@
                                == RegisterFailure::NameConflict(names[at])
                    },
                }
            }),
    {
        if !extensible {
            return Err(RegisterError::GlobalNotExtensible);
        }
        let sync = self.config.environment.file_reader_sync_enabled();
        let names = names_to_check(sync, self.config.url_shim);
        let ghost views = name_views(names@);
        let ghost taken = owned_names(own_names@);
        let mut i: usize = 0;
        while i < names.len()
            invariant
                i <= names@.len(),
                extensible,
                views == name_views(names@),
                views == required_names(
                    self.config.environment.reads_synchronously(),
                    self.config.url_shim,
                ),
                taken == owned_names(own_names@),
                forall|k: int| 0 <= k < i ==> !taken.contains(#[trigger] views[k]),
            decreases names@.len() - i,
        {
            assert(views[i as int] == names@[i as int]@);
            if is_taken(names[i], own_names) {
                assert(first_taken(views, taken, i as int));
                return Err(RegisterError::NameConflict(names[i].to_owned()));
            }
            i = i + 1;
        }
        Ok(())
    }
}

} // verus!

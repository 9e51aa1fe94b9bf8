//! Installing the globals: all of them, or none.

use vstd::prelude::*;

use crate::clone_bridge::{CloneBridgeDescriptor, CLONE_ENCODING_VERSION};
use crate::environment::is_origin;
use crate::error::{JsError, JsErrorKind, RegisterError, RegisterFailure};
use crate::extension::{
    bridge_view, first_taken, installed_names, name_views, names_to_install, none_taken,
    owned_names, required_names, setup_failure, ExtensionConfig, FileApiExtension, Setup,
};
use crate::handle::{is_fresh, FileApiHandle};
use crate::ids::{issue_step, FileApiContextId, IdCounter, RegistrationIdentity};

verus! {

/// Where an installation stands.
#[derive(Debug)]
enum Phase {
    /// The next name to define.
    Defining(usize),
    /// The next name to delete after a failure.
    Deleting(usize, JsError),
    /// Every name is defined.
    Installed,
    /// Every name is deleted again after a failure.
    RolledBack(JsError),
    /// A deletion failed too.
    Stuck(JsError),
}

/// The attributes of a property.
#[derive(Clone, Copy, Debug, PartialEq, Eq, Structural)]
pub struct PropertyFlags {
    /// Whether it can be assigned to.
    pub writable: bool,
    /// Whether an enumeration shows it.
    pub enumerable: bool,
    /// Whether it can be deleted and defined anew.
    pub configurable: bool,
}

/// The attributes of every global: writable, configurable, not enumerable.
pub open spec fn global_flags() -> PropertyFlags {
    PropertyFlags { writable: true, enumerable: false, configurable: true }
}

/// The attributes of every global.
pub fn flags_of_globals() -> (flags: PropertyFlags)
    ensures
        flags == global_flags(),
{
    PropertyFlags { writable: true, enumerable: false, configurable: true }
}

/// What the host has to do next.
#[derive(Clone, Copy, Debug)]
pub enum InstallAction {
    /// Define the property of this name with these attributes.
    Define(&'static str, PropertyFlags),
    /// Delete the property of this name.
    Delete(&'static str),
    /// Nothing: the installation is over.
    Finished,
}

/// The contents of an [`InstallAction`].
pub enum ActionView {
    /// Define the property of this name with these attributes.
    Define(Seq<char>, PropertyFlags),
    /// Delete the property of this name.
    Delete(Seq<char>),
    /// Nothing.
    Finished,
}

impl View for InstallAction {
    type V = ActionView;

    open spec fn view(&self) -> ActionView {
        match self {
            InstallAction::Define(name, flags) => ActionView::Define(name@, *flags),
            InstallAction::Delete(name) => ActionView::Delete(name@),
            InstallAction::Finished => ActionView::Finished,
        }
    }
}

/// Where an installation stands.
pub enum PhaseView {
    /// The next name to define.
    Defining(int),
    /// The next name to delete after a failure.
    Deleting(int, (JsErrorKind, Seq<char>)),
    /// Every name is defined.
    Installed,
    /// Every name is deleted again after a failure.
    RolledBack((JsErrorKind, Seq<char>)),
    /// A deletion failed too.
    Stuck((JsErrorKind, Seq<char>)),
}

/// The contents of an [`Installation`].
pub struct InstallView {
    /// The names, in order.
    pub names: Seq<Seq<char>>,
    /// Where it stands.
    pub phase: PhaseView,
}

/// The names to install are installed one by one; after a failure all of them
/// are deleted again.
#[derive(Debug)]
pub struct Installation {
    names: Vec<&'static str>,
    phase: Phase,
}

impl View for Installation {
    type V = InstallView;

    closed spec fn view(&self) -> InstallView {
        InstallView {
            names: name_views(self.names@),
            phase: match self.phase {
                Phase::Defining(at) => PhaseView::Defining(at as int),
                Phase::Deleting(at, error) => PhaseView::Deleting(at as int, error@),
                Phase::Installed => PhaseView::Installed,
                Phase::RolledBack(error) => PhaseView::RolledBack(error@),
                Phase::Stuck(error) => PhaseView::Stuck(error@),
            },
        }
    }
}

/// There is a next name while the installation is under way.
pub open spec fn install_wf(install: InstallView) -> bool {
    match install.phase {
        PhaseView::Defining(at) => 0 <= at < install.names.len(),
        PhaseView::Deleting(at, _) => 0 <= at < install.names.len(),
        _ => true,
    }
}

/// What the host has to do next.
pub open spec fn next_action(install: InstallView) -> ActionView {
    match install.phase {
        PhaseView::Defining(at) => ActionView::Define(install.names[at], global_flags()),
        PhaseView::Deleting(at, _) => ActionView::Delete(install.names[at]),
        _ => ActionView::Finished,
    }
}

/// Where the installation stands after the host did what was next, with the
/// given failure if it failed.
pub open spec fn install_step(
    install: InstallView,
    failure: Option<(JsErrorKind, Seq<char>)>,
) -> InstallView {
    let phase = match install.phase {
        PhaseView::Defining(at) => match failure {
            None => if at + 1 == install.names.len() {
                PhaseView::Installed
            } else {
                PhaseView::Defining(at + 1)
            },
            Some(error) => PhaseView::Deleting(0, error),
        },
        PhaseView::Deleting(at, error) => match failure {
            None => if at + 1 == install.names.len() {
                PhaseView::RolledBack(error)
            } else {
                PhaseView::Deleting(at + 1, error)
            },
            Some(second) => PhaseView::Stuck(second),
        },
        over => over,
    };
    InstallView { phase, ..install }
}

/// The outcome of an installation that is over.
pub open spec fn install_outcome(install: InstallView) -> Option<Result<(), RegisterFailure>> {
    match install.phase {
        PhaseView::Installed => Some(Ok(())),
        PhaseView::RolledBack(error) => Some(Err(RegisterFailure::Js(error))),
        PhaseView::Stuck(error) => Some(Err(RegisterFailure::Js(error))),
        _ => None,
    }
}

/// An installation that has defined nothing yet.
pub open spec fn begun(sync: bool, url: bool) -> InstallView {
    InstallView { names: installed_names(sync, url), phase: PhaseView::Defining(0) }
}

impl Installation {
    /// An installation of the names of a registration.
    pub fn begin(sync: bool, url: bool) -> (install: Installation)
        ensures
            install@ == begun(sync, url),
            install_wf(install@),
    {
        Installation { names: names_to_install(sync, url), phase: Phase::Defining(0) }
    }

    /// What the host has to do next.
    pub fn next(&self) -> (action: InstallAction)
        requires
            install_wf(self@),
        ensures
            action@ == next_action(self@),
    {
        match &self.phase {
            Phase::Defining(at) => {
                assert(self@.names[*at as int] == self.names@[*at as int]@);
                InstallAction::Define(self.names[*at], flags_of_globals())
            },
            Phase::Deleting(at, _) => {
                assert(self@.names[*at as int] == self.names@[*at as int]@);
                InstallAction::Delete(self.names[*at])
            },
            _ => InstallAction::Finished,
        }
    }

    /// Takes note of how the last action went.
    pub fn report(self, outcome: Result<(), JsError>) -> (install: Installation)
        requires
            install_wf(self@),
        ensures
            install_wf(install@),
            install@ == install_step(
                self@,
                match outcome {
                    Ok(_) => None,
                    Err(error) => Some(error@),
                },
            ),
    {
        let names = self.names;
        let count: usize = names.len();
        let phase = match self.phase {
            Phase::Defining(at) => match outcome {
                Ok(_) => if at + 1 == count {
                    Phase::Installed
                } else {
                    Phase::Defining(at + 1)
                },
                Err(error) => Phase::Deleting(0, error),
            },
            Phase::Deleting(at, error) => match outcome {
                Ok(_) => if at + 1 == count {
                    Phase::RolledBack(error)
                } else {
                    Phase::Deleting(at + 1, error)
                },
                Err(second) => Phase::Stuck(second),
            },
            over => over,
        };
        Installation { names, phase }
    }

    /// The outcome, once the installation is over.
    pub fn outcome(self) -> (outcome: Option<Result<(), RegisterError>>)
        ensures
            match outcome {
                Some(Ok(_)) => install_outcome(self@) == Some(Ok::<(), RegisterFailure>(())),
                Some(Err(error)) => install_outcome(self@) == Some(
                    Err::<(), RegisterFailure>(error@),
                ),
                None => install_outcome(self@) is None,
            },
    {
        match self.phase {
            Phase::Installed => Some(Ok(())),
            Phase::RolledBack(error) => Some(Err(RegisterError::Js(error))),
            Phase::Stuck(error) => Some(Err(RegisterError::Js(error))),
            _ => None,
        }
    }
}

/// The properties of a global object after an action: one that failed changed
/// nothing.
pub open spec fn acted(
    globals: Map<Seq<char>, PropertyFlags>,
    action: ActionView,
    failed: bool,
) -> Map<Seq<char>, PropertyFlags> {
    if failed {
        globals
    } else {
        match action {
            ActionView::Define(name, flags) => globals.insert(name, flags),
            ActionView::Delete(name) => globals.remove(name),
            ActionView::Finished => globals,
        }
    }
}

/// The properties of a global object after globals of the given names were
/// defined on it.
pub open spec fn with_globals(
    initial: Map<Seq<char>, PropertyFlags>,
    names: Set<Seq<char>>,
) -> Map<Seq<char>, PropertyFlags> {
    Map::new(
        |name: Seq<char>| initial.dom().contains(name) || names.contains(name),
        |name: Seq<char>|
            if names.contains(name) {
                global_flags()
            } else {
                initial[name]
            },
    )
}

/// The first `count` names, as a set.
pub open spec fn first_names(names: Seq<Seq<char>>, count: int) -> Set<Seq<char>> {
    names.take(count).to_set()
}

/// What the properties of a global object can be while an installation is under
/// way that began with the properties `initial`.
pub open spec fn on_track(
    install: InstallView,
    initial: Map<Seq<char>, PropertyFlags>,
    globals: Map<Seq<char>, PropertyFlags>,
) -> bool {
    match install.phase {
        PhaseView::Defining(at) => globals == with_globals(initial, first_names(install.names, at)),
        PhaseView::Deleting(at, _) => {
            &&& initial.submap_of(globals)
            &&& globals.dom().subset_of(
                initial.dom().union(first_names(install.names, install.names.len() as int)),
            )
            &&& forall|i: int| 0 <= i < at ==> !globals.dom().contains(#[trigger] install.names[i])
        },
        PhaseView::Installed => globals == with_globals(
            initial,
            first_names(install.names, install.names.len() as int),
        ),
        PhaseView::RolledBack(_) => globals == initial,
        PhaseView::Stuck(_) => initial.submap_of(globals),
    }
}

/// Every action keeps an installation on track, whether it fails or not.
pub proof fn lemma_install_step(
    install: InstallView,
    initial: Map<Seq<char>, PropertyFlags>,
    globals: Map<Seq<char>, PropertyFlags>,
    failure: Option<(JsErrorKind, Seq<char>)>,
)
    requires
        install_wf(install),
        on_track(install, initial, globals),
        forall|i: int|
            0 <= i < install.names.len() ==> !initial.dom().contains(
                #[trigger] install.names[i],
            ),
    ensures
        install_wf(install_step(install, failure)),
        on_track(
            install_step(install, failure),
            initial,
            acted(globals, next_action(install), failure is Some),
        ),
{
    let names = install.names;
    let all = first_names(names, names.len() as int);
    let after = acted(globals, next_action(install), failure is Some);
    match install.phase {
        PhaseView::Defining(at) => {
            if failure is None {
                let longer = names.take(at + 1);
                assert(longer =~= names.take(at).push(names[at]));
                lemma_push_to_set(names.take(at), names[at]);
                assert(after =~= with_globals(initial, first_names(names, at + 1)));
            } else {
                let defined = names.take(at);
                assert forall|name: Seq<char>| #[trigger]
                    first_names(names, at).contains(name) implies all.contains(name)
                    && !initial.dom().contains(name) by {
                    let i = choose|i: int| 0 <= i < defined.len() && defined[i] == name;
                    assert(names.take(names.len() as int)[i] == name);
                    assert(names[i] == name);
                }
                assert(initial.submap_of(globals)) by {
                    assert forall|name: Seq<char>| initial.dom().contains(name) implies
                        globals.dom().contains(name) && globals[name] == initial[name] by {
                        assert(!first_names(names, at).contains(name));
                    }
                }
                assert(globals.dom().subset_of(initial.dom().union(all)));
            }
        },
        PhaseView::Deleting(at, error) => {
            if failure is None {
                assert(!initial.dom().contains(names[at]));
                assert(initial.submap_of(after));
                if at + 1 == names.len() {
                    assert forall|name: Seq<char>| after.dom().contains(
                        name,
                    ) implies initial.dom().contains(name) by {
                        if !initial.dom().contains(name) {
                            assert(globals.dom().contains(name));
                            assert(all.contains(name));
                            let whole = names.take(names.len() as int);
                            let i = choose|i: int| 0 <= i < whole.len() && whole[i] == name;
                            assert(names[i] == name);
                            assert(false);
                        }
                    }
                    assert(after =~= initial);
                }
            }
        },
        _ => {},
    }
}

proof fn lemma_push_to_set(front: Seq<Seq<char>>, last: Seq<char>)
    ensures
        front.push(last).to_set() == front.to_set().insert(last),
{
    let longer = front.push(last);
    assert forall|name: Seq<char>| longer.to_set().contains(name) == #[trigger] front.to_set().insert(
        last,
    ).contains(name) by {
        if longer.contains(name) {
            let i = choose|i: int| 0 <= i < longer.len() && longer[i] == name;
            if i < front.len() {
                assert(front[i] == name);
            }
        }
        if front.contains(name) {
            let i = choose|i: int| 0 <= i < front.len() && front[i] == name;
            assert(longer[i] == name);
        }
        assert(longer[front.len() as int] == last);
    }
    assert(longer.to_set() =~= front.to_set().insert(last));
}

/// Whether some deletion of a run failed.
pub open spec fn deletion_failed(
    installs: Seq<InstallView>,
    failures: Seq<Option<(JsErrorKind, Seq<char>)>>,
) -> bool {
    exists|k: int|
        0 <= k < failures.len() && (#[trigger] installs[k]).phase is Deleting && failures[k] is Some
}

/// An installation that succeeds has defined every name with the attributes of
/// a global, and one that fails has left none behind, unless a deletion failed
/// too. No other property is touched.
pub proof fn lemma_install_is_atomic(
    installs: Seq<InstallView>,
    globals: Seq<Map<Seq<char>, PropertyFlags>>,
    failures: Seq<Option<(JsErrorKind, Seq<char>)>>,
)
    requires
        installs.len() == failures.len() + 1,
        globals.len() == failures.len() + 1,
        installs[0].phase == PhaseView::Defining(0),
        install_wf(installs[0]),
        forall|i: int|
            0 <= i < installs[0].names.len() ==> !globals[0].dom().contains(
                #[trigger] installs[0].names[i],
            ),
        forall|k: int|
            0 <= k < failures.len() ==> {
                &&& #[trigger] installs[k + 1] == install_step(installs[k], failures[k])
                &&& globals[k + 1] == acted(
                    globals[k],
                    next_action(installs[k]),
                    failures[k] is Some,
                )
            },
    ensures
        match install_outcome(installs.last()) {
            Some(Ok(_)) => globals.last() == with_globals(
                globals[0],
                installs[0].names.to_set(),
            ),
            Some(Err(_)) => globals.last() == globals[0] || deletion_failed(installs, failures),
            None => true,
        },
{
    lemma_install_run(installs, globals, failures, failures.len() as int);
    assert(installs[0].names.take(installs[0].names.len() as int) =~= installs[0].names);
}

/// A registration is atomic. Where it begins with an installation, the global
/// object that the installation is carried out on ends with every name, each
/// with the attributes of a global, if the registration succeeds; if it fails,
/// with exactly the properties that it had, unless a deletion failed too. Where
/// it is refused before that, nothing is carried out.
pub proof fn lemma_registration_is_atomic(
    sync: bool,
    url: bool,
    taken: Seq<Seq<char>>,
    installs: Seq<InstallView>,
    globals: Seq<Map<Seq<char>, PropertyFlags>>,
    failures: Seq<Option<(JsErrorKind, Seq<char>)>>,
    result: Result<(), RegisterFailure>,
)
    requires
        none_taken(required_names(sync, url), taken),
        installs.len() == failures.len() + 1,
        globals.len() == failures.len() + 1,
        installs[0] == begun(sync, url),
        globals[0].dom() == taken.to_set(),
        forall|k: int|
            0 <= k < failures.len() ==> {
                &&& #[trigger] installs[k + 1] == install_step(installs[k], failures[k])
                &&& globals[k + 1] == acted(
                    globals[k],
                    next_action(installs[k]),
                    failures[k] is Some,
                )
            },
        install_outcome(installs.last()) == Some(result),
    ensures
        match result {
            Ok(_) => globals.last() == with_globals(
                globals[0],
                installed_names(sync, url).to_set(),
            ),
            Err(_) => globals.last() == globals[0] || deletion_failed(installs, failures),
        },
{
    lemma_installed_names_are_tested(sync, url, taken);
    let names = installs[0].names;
    assert forall|i: int| 0 <= i < names.len() implies !globals[0].dom().contains(
        #[trigger] names[i],
    ) by {
        assert(!taken.contains(names[i]));
    }
    lemma_install_is_atomic(installs, globals, failures);
}

/// Every name that is installed is tested first: where none of the tested names
/// is taken, no installed one is.
pub proof fn lemma_installed_names_are_tested(sync: bool, url: bool, taken: Seq<Seq<char>>)
    requires
        none_taken(required_names(sync, url), taken),
    ensures
        none_taken(installed_names(sync, url), taken),
{
    let tested = required_names(sync, url);
    let installed = installed_names(sync, url);
    assert forall|i: int| 0 <= i < installed.len() implies !taken.contains(
        #[trigger] installed[i],
    ) by {
        let at = if i < 2 {
            i
        } else {
            i + 1
        };
        assert(tested[at] == installed[i]);
    }
}

/// Which names are installed: those of the interfaces in every registration,
/// `FileReaderSync` exactly where reads may be synchronous, `URL` exactly with
/// the URL shim, and `FileList` never. No name is installed twice.
pub proof fn lemma_which_names_are_installed(sync: bool, url: bool)
    ensures
        installed_names(sync, url).take(9) == installed_names(false, false),
        installed_names(sync, url).contains("FileReaderSync"@) <==> sync,
        installed_names(sync, url).contains("URL"@) <==> url,
        !installed_names(sync, url).contains("FileList"@),
        installed_names(sync, url).no_duplicates(),
{
    reveal_strlit("Blob");
    reveal_strlit("File");
    reveal_strlit("FileList");
    reveal_strlit("ReadableStream");
    reveal_strlit("ReadableStreamDefaultReader");
    reveal_strlit("EventTarget");
    reveal_strlit("Event");
    reveal_strlit("ProgressEvent");
    reveal_strlit("DOMException");
    reveal_strlit("FileReader");
    reveal_strlit("FileReaderSync");
    reveal_strlit("URL");
    let names = installed_names(sync, url);
    assert(names.take(9) =~= installed_names(false, false));
    assert("Blob"@[0] == 'B' && "File"@[0] == 'F');
    assert("ReadableStream"@[0] == 'R' && "FileReaderSync"@[0] == 'F');
    assert(names[0].len() == 4 && names[1].len() == 4 && names[2].len() == 14);
    assert(names[3].len() == 27 && names[4].len() == 11 && names[5].len() == 5);
    assert(names[6].len() == 13 && names[7].len() == 12 && names[8].len() == 10);
    if sync {
        assert(names[9] == "FileReaderSync"@);
    }
    if url {
        assert(names[names.len() - 1] == "URL"@);
    }
    assert forall|i: int| 0 <= i < names.len() implies {
        &&& (#[trigger] names[i]).len() != 8
        &&& names[i].len() == 3 ==> url && i == names.len() - 1
        &&& names[i].len() == 14 ==> i == 2 || (sync && i == 9)
    } by {}
    assert forall|i: int, j: int| 0 <= i < names.len() && 0 <= j < names.len() && i != j implies
        names[i] != names[j] by {
        if names[i].len() == names[j].len() {
            assert(i <= 2 || j <= 2);
        }
    }
}

proof fn lemma_install_run(
    installs: Seq<InstallView>,
    globals: Seq<Map<Seq<char>, PropertyFlags>>,
    failures: Seq<Option<(JsErrorKind, Seq<char>)>>,
    count: int,
)
    requires
        installs.len() == failures.len() + 1,
        globals.len() == failures.len() + 1,
        installs[0].phase == PhaseView::Defining(0),
        install_wf(installs[0]),
        forall|i: int|
            0 <= i < installs[0].names.len() ==> !globals[0].dom().contains(
                #[trigger] installs[0].names[i],
            ),
        forall|k: int|
            0 <= k < failures.len() ==> {
                &&& #[trigger] installs[k + 1] == install_step(installs[k], failures[k])
                &&& globals[k + 1] == acted(
                    globals[k],
                    next_action(installs[k]),
                    failures[k] is Some,
                )
            },
        0 <= count <= failures.len(),
    ensures
        installs[count].names == installs[0].names,
        install_wf(installs[count]),
        on_track(installs[count], globals[0], globals[count]),
        installs[count].phase is Stuck ==> deletion_failed(installs, failures),
    decreases count,
{
    if count == 0 {
        assert(installs[0].names.take(0) =~= Seq::<Seq<char>>::empty());
        assert(globals[0] =~= with_globals(globals[0], first_names(installs[0].names, 0))) by {
            assert forall|name: Seq<char>| !first_names(installs[0].names, 0).contains(name) by {}
        }
    } else {
        lemma_install_run(installs, globals, failures, count - 1);
        let k = count - 1;
        assert(installs[k + 1] == install_step(installs[k], failures[k]));
        lemma_install_step(installs[k], globals[0], globals[k], failures[k]);
        if installs[count].phase is Stuck && !(installs[k].phase is Stuck) {
            assert(installs[k].phase is Deleting);
        }
    }
}

/// How a registration begins.
#[derive(Debug)]
pub enum RegisterStart {
    /// This extension is registered in the context already; nothing is to be
    /// done.
    Registered,
    /// The globals are to be installed in the context of this number.
    Install(Installation, FileApiContextId),
}

/// Whether a registration is refused with `failure` before the global object is
/// touched: the settings are tested first, then the object, then whether there
/// is a number left for the context.
pub open spec fn refused_with(
    config: ExtensionConfig,
    registered: Option<RegistrationIdentity>,
    bridge: Option<(Seq<char>, u32)>,
    extensible: bool,
    taken: Seq<Seq<char>>,
    exhausted: bool,
    failure: RegisterFailure,
) -> bool {
    let names = required_names(config.environment.reads_synchronously(), config.url_shim);
    match setup_failure(config, registered, bridge) {
        Some(error) => failure == error,
        None => {
            &&& registered is None
            &&& if !extensible {
                failure == RegisterFailure::GlobalNotExtensible
            } else if none_taken(names, taken) {
                exhausted && failure == RegisterFailure::IoIdsExhausted
            } else {
                exists|at: int| #[trigger]
                    first_taken(names, taken, at) && failure == RegisterFailure::NameConflict(
                        names[at],
                    )
            }
        },
    }
}

impl FileApiExtension {
    /// Begins a registration in a context.
    ///
    /// `registered` is the registration that the context has, `bridge` the clone
    /// bridge of the host; `extensible` and `own_names` tell of the global
    /// object; `contexts` issues the number of the context. Every refusal comes
    /// before the object is touched, that of a spent counter too.
    pub fn begin_register(
        &self,
        registered: Option<RegistrationIdentity>,
        bridge: &Option<CloneBridgeDescriptor>,
        extensible: bool,
        own_names: &Vec<String>,
        contexts: &mut IdCounter,
    ) -> (result: Result<RegisterStart, RegisterError>)
        ensures
            ({
                let sync = self.config.environment.reads_synchronously();
                let url = self.config.url_shim;
                let taken = owned_names(own_names@);
                match result {
                    Ok(RegisterStart::Registered) => {
                        &&& setup_failure(self.config, registered, bridge_view(*bridge)) is None
                        &&& registered is Some
                        &&& *final(contexts) == *old(contexts)
                    },
                    Ok(RegisterStart::Install(installation, context_id)) => {
                        &&& setup_failure(self.config, registered, bridge_view(*bridge)) is None
                        &&& registered is None
                        &&& extensible
                        &&& none_taken(required_names(sync, url), taken)
                        &&& install_wf(installation@)
                        &&& installation@ == begun(sync, url)
                        &&& !old(contexts).exhausted()
                        &&& issue_step(
                            old(contexts).spec_next(),
                            context_id.spec_get(),
                            final(contexts).spec_next(),
                        )
                    },
                    Err(error) => {
                        &&& refused_with(
                            self.config,
                            registered,
                            bridge_view(*bridge),
                            extensible,
                            taken,
                            old(contexts).exhausted(),
                            error@,
                        )
                        &&& *final(contexts) == *old(contexts) || old(contexts).exhausted()
                    },
                }
            }),
    {
        match self.check_setup(registered, bridge) {
            Ok(Setup::Registered) => {
                return Ok(RegisterStart::Registered);
            },
            Ok(Setup::Fresh) => {},
            Err(error) => {
                return Err(error);
            },
        }
        match self.check_global(extensible, own_names) {
            Ok(_) => {},
            Err(error) => {
                return Err(error);
            },
        }
        let sync = self.config.environment.file_reader_sync_enabled();
        match FileApiContextId::fresh(contexts) {
            Some(context_id) => Ok(
                RegisterStart::Install(
                    Installation::begin(sync, self.config.url_shim),
                    context_id,
                ),
            ),
            None => Err(RegisterError::IoIdsExhausted),
        }
    }

    /// The state of a context whose installation is over. The only failure is
    /// that of the installation.
    pub fn register(&self, installation: Installation, context_id: FileApiContextId) -> (result:
        Result<FileApiHandle, RegisterError>)
        requires
            install_outcome(installation@) is Some,
        ensures
            match install_outcome(installation@)->0 {
                Err(failure) => {
                    &&& result matches Err(error)
                    &&& error@ == failure
                },
                Ok(_) => {
                    &&& result matches Ok(handle)
                    &&& handle.config@ == self.config@
                    &&& is_fresh(handle, context_id)
                },
            },
    {
        match installation.outcome() {
            Some(Err(error)) => Err(error),
            _ => Ok(FileApiHandle::new(self.config.copy(), context_id)),
        }
    }
}


/// Where nothing fails, an installation defines every name, one after the other,
/// and ends installed; where one definition fails and every deletion succeeds, it
/// deletes every name and ends with that failure.
pub proof fn lemma_installations_come_to_an_end(
    installs: Seq<Installation>,
    outcomes: Seq<Result<(), JsError>>,
    failed: int,
    actions: Seq<InstallAction>,
    ended: Option<Result<(), RegisterError>>,
    at: int,
)
    requires
        installs.len() == outcomes.len() + 1,
        actions.len() == outcomes.len(),
        install_wf(installs[0]@),
        installs[0]@.phase == PhaseView::Defining(0),
        forall|k: int|
            0 <= k < outcomes.len() ==> #[trigger] reported(
                installs[k],
                actions[k],
                outcomes[k],
                installs[k + 1],
            ),
        0 <= failed <= installs[0]@.names.len(),
        outcomes.len() == if failed < installs[0]@.names.len() {
            failed + 1 + installs[0]@.names.len()
        } else {
            failed
        },
        forall|k: int|
            0 <= k < outcomes.len() ==> (#[trigger] outcomes[k] is Err <==> k == failed),
        call_ensures(Installation::outcome, (installs.last(),), ended),
        0 <= at < installs[0]@.names.len(),
    ensures
        at <= failed ==> (actions[at] matches InstallAction::Define(name, flags) && name@
            == installs[0]@.names[at] && flags.writable && !flags.enumerable
            && flags.configurable),
        failed < installs[0]@.names.len() ==> {
            &&& actions[failed + 1 + at] matches InstallAction::Delete(name) && name@
                == installs[0]@.names[at]
            &&& ended matches Some(Err(RegisterError::Js(error))) && error@
                == outcomes[failed]->Err_0@
        },
        failed == installs[0]@.names.len() ==> (ended matches Some(Ok(_))),
{
    let names = installs[0]@.names;
    if at <= failed {
        lemma_defining(installs, outcomes, actions, failed, at);
        assert(reported(installs[at], actions[at], outcomes[at], installs[at + 1]));
    }
    if failed < names.len() {
        lemma_deleting(installs, outcomes, actions, failed, at);
        let k = failed + 1 + at;
        assert(reported(installs[k], actions[k], outcomes[k], installs[k + 1]));
        lemma_deleting(installs, outcomes, actions, failed, names.len() - 1);
        let last = failed + names.len();
        assert(reported(installs[last], actions[last], outcomes[last], installs[last + 1]));
        assert(outcomes[last] is Ok);
    } else {
        lemma_defining(installs, outcomes, actions, failed, names.len() - 1);
        let last = names.len() - 1;
        assert(reported(installs[last], actions[last], outcomes[last], installs[last + 1]));
        assert(outcomes[last] is Ok);
    }
}

/// Whether `install` asks for `action`, and is `after` once its outcome is reported.
pub open spec fn reported(
    install: Installation,
    action: InstallAction,
    outcome: Result<(), JsError>,
    after: Installation,
) -> bool {
    &&& call_ensures(Installation::next, (&install,), action)
    &&& call_ensures(Installation::report, (install, outcome), after)
}

proof fn lemma_defining(
    installs: Seq<Installation>,
    outcomes: Seq<Result<(), JsError>>,
    actions: Seq<InstallAction>,
    failed: int,
    at: int,
)
    requires
        installs.len() == outcomes.len() + 1,
        actions.len() == outcomes.len(),
        install_wf(installs[0]@),
        installs[0]@.phase == PhaseView::Defining(0),
        forall|k: int|
            0 <= k < outcomes.len() ==> #[trigger] reported(
                installs[k],
                actions[k],
                outcomes[k],
                installs[k + 1],
            ),
        0 <= at < installs[0]@.names.len(),
        at <= failed,
        at <= outcomes.len(),
        forall|k: int|
            0 <= k < outcomes.len() ==> (#[trigger] outcomes[k] is Err <==> k == failed),
    ensures
        installs[at]@.names == installs[0]@.names,
        installs[at]@.phase == PhaseView::Defining(at),
    decreases at,
{
    if at > 0 {
        lemma_defining(installs, outcomes, actions, failed, at - 1);
        let k = at - 1;
        assert(reported(installs[k], actions[k], outcomes[k], installs[k + 1]));
        assert(outcomes[k] is Ok);
    }
}

proof fn lemma_deleting(
    installs: Seq<Installation>,
    outcomes: Seq<Result<(), JsError>>,
    actions: Seq<InstallAction>,
    failed: int,
    at: int,
)
    requires
        installs.len() == outcomes.len() + 1,
        actions.len() == outcomes.len(),
        install_wf(installs[0]@),
        installs[0]@.phase == PhaseView::Defining(0),
        forall|k: int|
            0 <= k < outcomes.len() ==> #[trigger] reported(
                installs[k],
                actions[k],
                outcomes[k],
                installs[k + 1],
            ),
        0 <= failed < installs[0]@.names.len(),
        0 <= at < installs[0]@.names.len(),
        failed + 1 + at < outcomes.len(),
        forall|k: int|
            0 <= k < outcomes.len() ==> (#[trigger] outcomes[k] is Err <==> k == failed),
    ensures
        installs[failed + 1 + at]@.names == installs[0]@.names,
        installs[failed + 1 + at]@.phase == PhaseView::Deleting(at, outcomes[failed]->Err_0@),
    decreases at,
{
    if at > 0 {
        let k = failed + at;
        lemma_deleting(installs, outcomes, actions, failed, at - 1);
        assert(reported(installs[k], actions[k], outcomes[k], installs[k + 1]));
        assert(outcomes[k] is Ok);
    } else {
        lemma_defining(installs, outcomes, actions, failed, failed);
        assert(reported(
            installs[failed],
            actions[failed],
            outcomes[failed],
            installs[failed + 1],
        ));
        assert(outcomes[failed] is Err);
    }
}

/// An extension is installed only into an extensible global object on which none
/// of its names is taken, with both shims that it needs, an acceptable origin and
/// a chunk size in range, and into a context that has none yet; and it is
/// installed whenever all of that holds. Registering it a second time does
/// nothing, and registering another one is refused.
pub proof fn lemma_registrations_are_checked(
    extension: FileApiExtension,
    registered: Option<RegistrationIdentity>,
    bridge: Option<CloneBridgeDescriptor>,
    extensible: bool,
    own_names: Vec<String>,
    contexts: &mut IdCounter,
    result: Result<RegisterStart, RegisterError>,
    name: Seq<char>,
)
    requires
        call_ensures(
            FileApiExtension::begin_register,
            (&extension, registered, &bridge, extensible, &own_names, contexts),
            result,
        ),
        extension.config.identity.spec_get() != u64::MAX,
    ensures
        registered is Some ==> (result is Ok <==> registered == Some(extension.config.identity)),
        registered is Some && result is Ok ==> result->Ok_0 is Registered && *final(contexts)
            == *old(contexts),
        registered is None && result is Ok ==> {
            &&& result->Ok_0 is Install
            &&& extensible
            &&& extension.config.streams_shim && extension.config.dom_shim
            &&& is_origin(extension.config.origin@)
            &&& extension.config.limits.chunk_size_valid()
            &&& extension.config.structured_clone ==> (bridge matches Some(described)
                ==> described.version == CLONE_ENCODING_VERSION)
            &&& result->Ok_0->Install_0@.names.contains(name) ==> forall|i: int|
                0 <= i < own_names@.len() ==> (#[trigger] own_names@[i])@ != name
            &&& final(contexts).spec_next() > old(contexts).spec_next()
        },
        registered is None && extensible && extension.config.streams_shim
            && extension.config.dom_shim && is_origin(extension.config.origin@)
            && extension.config.limits.chunk_size_valid() && !(extension.config.structured_clone
            && bridge is Some && bridge->0.version != CLONE_ENCODING_VERSION) && own_names@.len()
            == 0 && !old(contexts).exhausted() ==> result is Ok,
{
    let sync = extension.config.environment.reads_synchronously();
    let url = extension.config.url_shim;
    let taken = owned_names(own_names@);
    if result is Ok && registered is None {
        lemma_installed_names_are_tested(sync, url, taken);
        let names = installed_names(sync, url);
        if names.contains(name) {
            let at = choose|at: int| 0 <= at < names.len() && names[at] == name;
            assert(!taken.contains(names[at]));
            assert forall|i: int| 0 <= i < own_names@.len() implies (#[trigger] own_names@[i])@
                != name by {
                assert(taken[i] == own_names@[i]@);
            }
        }
    }
    if own_names@.len() == 0 {
        assert(taken =~= Seq::<Seq<char>>::empty());
        assert(none_taken(required_names(sync, url), taken));
    }
}

} // verus!

//! A precompiled component package: its core-module binaries, addressed by
//! file name, and the text of the script that instantiates them.

use vstd::prelude::*;
use vstd::utf8::{decode_utf8, valid_utf8};

verus! {

/// What can go wrong while loading or instantiating a component package.
#[derive(Debug, Clone, PartialEq, Eq)]
pub enum BridgeError {
    /// No file of the package is an instantiation script.
    MissingInstantiationScript,
    /// An instantiation script of the package is not valid UTF-8 text.
    InvalidEncoding,
    /// Evaluating the script did not yield an invocable value.
    ScriptEvaluationError(String),
    /// The engine rejected the compilation or instantiation of a core module.
    InstantiationFailed(String),
    /// The script asked for a core module that the package does not hold.
    UnknownCoreModule(String),
}

/// `suffix` ends `s`.
pub open spec fn ends_with(s: Seq<char>, suffix: Seq<char>) -> bool {
    suffix.len() <= s.len() && s.subrange(s.len() - suffix.len(), s.len() as int) == suffix
}

/// A file of a package that holds a compiled core module.
pub open spec fn is_core_name(name: Seq<char>) -> bool {
    ends_with(name, ".wasm"@)
}

/// A file of a package that holds the instantiation script.
pub open spec fn is_script_name(name: Seq<char>) -> bool {
    !is_core_name(name) && ends_with(name, "sync_component.js"@)
}

/// The files of a package as names and contents.
pub open spec fn files_view(files: Seq<(String, Vec<u8>)>) -> Seq<(Seq<char>, Seq<u8>)> {
    files.map_values(|f: (String, Vec<u8>)| (f.0@, f.1@))
}

/// The core modules of a package: every core-module file under its name, a
/// later file replacing an earlier one of the same name.
pub open spec fn core_map(files: Seq<(Seq<char>, Seq<u8>)>) -> Map<Seq<char>, Seq<u8>>
    decreases files.len(),
{
    if files.len() == 0 {
        Map::empty()
    } else {
        let rest = core_map(files.drop_last());
        let f = files.last();
        if is_core_name(f.0) {
            rest.insert(f.0, f.1)
        } else {
            rest
        }
    }
}

/// The contents of the last script file of a package, if it has one.
pub open spec fn last_script(files: Seq<(Seq<char>, Seq<u8>)>) -> Option<Seq<u8>>
    decreases files.len(),
{
    if files.len() == 0 {
        None
    } else if is_script_name(files.last().0) {
        Some(files.last().1)
    } else {
        last_script(files.drop_last())
    }
}

/// Some script file of the package is not valid UTF-8.
pub open spec fn has_undecodable_script(files: Seq<(Seq<char>, Seq<u8>)>) -> bool {
    exists|i: int| 0 <= i < files.len() && is_script_name(#[trigger] files[i].0) && !valid_utf8(files[i].1)
}

/// Relies on std::str::from_utf8: `Ok` exactly on valid UTF-8, holding the
/// characters that the bytes encode.
#[verifier::external_body]
fn decode_text(bytes: &[u8]) -> (r: Option<String>)
    ensures
        r is Some <==> valid_utf8(bytes@),
        r matches Some(s) ==> s@ == decode_utf8(bytes@),
{
    std::str::from_utf8(bytes).ok().map(String::from)
}

/// Whether `suffix` ends `s`.
pub fn has_suffix(s: &str, suffix: &str) -> (r: bool)
    ensures
        r == ends_with(s@, suffix@),
{
    let n = s.unicode_len();
    let m = suffix.unicode_len();
    if m > n {
        return false;
    }
    let off: usize = n - m;
    let mut i: usize = 0;
    while i < m
        invariant
            n == s@.len(),
            m == suffix@.len(),
            off + m == n,
            i <= m,
            forall|j: int| 0 <= j < i ==> s@[off + j] == suffix@[j],
        decreases m - i,
    {
        if s.get_char(off + i) != suffix.get_char(i) {
            assert(s@.subrange(off as int, n as int)[i as int] != suffix@[i as int]);
            return false;
        }
        i = i + 1;
    }
    assert(s@.subrange(off as int, n as int) =~= suffix@);
    true
}

/// Core-module binaries keyed by unique file name.
pub struct CoreModuleSet {
    entries: Vec<(String, Vec<u8>)>,
    model: Ghost<Map<Seq<char>, Seq<u8>>>,
}

impl View for CoreModuleSet {
    type V = Map<Seq<char>, Seq<u8>>;

    closed spec fn view(&self) -> Map<Seq<char>, Seq<u8>> {
        self.model@
    }
}

impl CoreModuleSet {
    /// The entries hold each name once, and exactly the pairs of the model.
    pub closed spec fn wf(&self) -> bool {
        &&& self.model@.dom().finite()
        &&& self.model@.dom().len() == self.entries@.len()
        &&& forall|i: int| #![trigger self.entries@[i]]
            0 <= i < self.entries@.len() ==> {
                &&& self.model@.contains_key(self.entries@[i].0@)
                &&& self.model@[self.entries@[i].0@] == self.entries@[i].1@
            }
        &&& forall|i: int, j: int|
            0 <= i < self.entries@.len() && 0 <= j < self.entries@.len() && i != j
                ==> #[trigger] self.entries@[i].0@ != #[trigger] self.entries@[j].0@
        &&& forall|k: Seq<char>| #[trigger] self.model@.contains_key(k) ==>
            exists|i: int| 0 <= i < self.entries@.len() && #[trigger] self.entries@[i].0@ == k
    }

    /// An empty set.
    pub fn new() -> (r: CoreModuleSet)
        ensures
            r.wf(),
            r@ == Map::<Seq<char>, Seq<u8>>::empty(),
    {
        CoreModuleSet { entries: Vec::new(), model: Ghost(Map::empty()) }
    }

    /// The number of modules.
    pub fn len(&self) -> (r: usize)
        requires
            self.wf(),
        ensures
            r == self@.dom().len(),
    {
        self.entries.len()
    }

    fn position(&self, name: &String) -> (r: Option<usize>)
        requires
            self.wf(),
        ensures
            r is None <==> !self@.contains_key(name@),
            r matches Some(i) ==> i < self.entries@.len() && self.entries@[i as int].0@ == name@,
    {
        let mut i: usize = 0;
        while i < self.entries.len()
            invariant
                self.wf(),
                i <= self.entries@.len(),
                forall|j: int| 0 <= j < i ==> self.entries@[j].0@ != name@,
            decreases self.entries@.len() - i,
        {
            if self.entries[i].0 == *name {
                return Some(i);
            }
            i = i + 1;
        }
        proof {
            if self@.contains_key(name@) {
                let k = choose|k: int| 0 <= k < self.entries@.len() && #[trigger] self.entries@[k].0@ == name@;
                assert(self.entries@[k].0@ != name@);
            }
        }
        None
    }

    /// The binary of the module called `name`, and only of that module.
    pub fn get(&self, name: &String) -> (r: Option<&Vec<u8>>)
        requires
            self.wf(),
        ensures
            r is Some <==> self@.contains_key(name@),
            r matches Some(b) ==> b@ == self@[name@],
    {
        match self.position(name) {
            Some(i) => Some(&self.entries[i].1),
            None => None,
        }
    }

    /// Adds `bytes` under `name`, replacing what was there.
    pub fn insert(&mut self, name: String, bytes: Vec<u8>)
        requires
            old(self).wf(),
        ensures
            final(self).wf(),
            final(self)@ == old(self)@.insert(name@, bytes@),
    {
        let ghost old_model = self.model@;
        let ghost old_entries = self.entries@;
        match self.position(&name) {
            Some(i) => {
                let ghost k = name@;
                self.entries.set(i, (name, bytes));
                self.model = Ghost(old_model.insert(k, bytes@));
                assert(self.model@.dom() =~= old_model.dom());
                assert forall|q: Seq<char>| #[trigger] self.model@.contains_key(q) implies
                    exists|j: int| 0 <= j < self.entries@.len() && #[trigger] self.entries@[j].0@ == q by {
                    if q != k {
                        let j = choose|j: int| 0 <= j < old_entries.len() && #[trigger] old_entries[j].0@ == q;
                        assert(self.entries@[j].0@ == q);
                    } else {
                        assert(self.entries@[i as int].0@ == q);
                    }
                }
            },
            None => {
                let ghost k = name@;
                self.entries.push((name, bytes));
                self.model = Ghost(old_model.insert(k, bytes@));
                assert(self.entries@.last().0@ == k);
                assert forall|q: Seq<char>| #[trigger] self.model@.contains_key(q) implies
                    exists|j: int| 0 <= j < self.entries@.len() && #[trigger] self.entries@[j].0@ == q by {
                    if q != k {
                        let j = choose|j: int| 0 <= j < old_entries.len() && #[trigger] old_entries[j].0@ == q;
                        assert(self.entries@[j].0@ == q);
                    } else {
                        assert(self.entries@[old_entries.len() as int].0@ == q);
                    }
                }
            },
        }
    }
}

/// The number of core-module files of a package.
pub open spec fn core_count(files: Seq<(Seq<char>, Seq<u8>)>) -> nat
    decreases files.len(),
{
    if files.len() == 0 {
        0
    } else {
        core_count(files.drop_last()) + if is_core_name(files.last().0) { 1nat } else { 0nat }
    }
}

/// No two core-module files of the package share a name.
pub open spec fn core_names_distinct(files: Seq<(Seq<char>, Seq<u8>)>) -> bool {
    forall|i: int, j: int|
        0 <= i < files.len() && 0 <= j < files.len() && i != j && is_core_name(files[i].0)
            ==> #[trigger] files[i].0 != #[trigger] files[j].0
}

/// A package whose core-module files have distinct names holds exactly one
/// module per such file, under the file's name and with the file's bytes.
pub proof fn lemma_one_module_per_core_file(files: Seq<(Seq<char>, Seq<u8>)>)
    requires
        core_names_distinct(files),
    ensures
        core_map(files).dom().finite(),
        core_map(files).dom().len() == core_count(files),
        forall|i: int| 0 <= i < files.len() && is_core_name(#[trigger] files[i].0) ==> {
            &&& core_map(files).contains_key(files[i].0)
            &&& core_map(files)[files[i].0] == files[i].1
        },
        forall|k: Seq<char>| #[trigger] core_map(files).contains_key(k) ==>
            exists|i: int| 0 <= i < files.len() && is_core_name(files[i].0) && #[trigger] files[i].0 == k,
    decreases files.len(),
{
    if files.len() > 0 {
        let rest = files.drop_last();
        assert forall|i: int, j: int|
            0 <= i < rest.len() && 0 <= j < rest.len() && i != j && is_core_name(rest[i].0)
                implies #[trigger] rest[i].0 != #[trigger] rest[j].0 by {
            assert(rest[i] == files[i] && rest[j] == files[j]);
        }
        lemma_one_module_per_core_file(rest);
        let f = files.last();
        let n = files.len() - 1;
        assert forall|k: Seq<char>| #[trigger] core_map(files).contains_key(k) implies
            exists|i: int| 0 <= i < files.len() && is_core_name(files[i].0) && #[trigger] files[i].0 == k by {
            if !(is_core_name(f.0) && k == f.0) {
                let i = choose|i: int| 0 <= i < rest.len() && is_core_name(rest[i].0) && #[trigger] rest[i].0 == k;
                assert(files[i] == rest[i]);
            } else {
                assert(files[n] == f);
            }
        }
        if is_core_name(f.0) {
            if core_map(rest).contains_key(f.0) {
                let i = choose|i: int| 0 <= i < rest.len() && is_core_name(rest[i].0) && #[trigger] rest[i].0 == f.0;
                assert(files[i] == rest[i]);
                assert(files[i].0 != files[n].0);
            }
        }
        assert forall|i: int| 0 <= i < files.len() && is_core_name(#[trigger] files[i].0) implies {
            &&& core_map(files).contains_key(files[i].0)
            &&& core_map(files)[files[i].0] == files[i].1
        } by {
            if i < n {
                assert(files[i] == rest[i]);
                if is_core_name(f.0) {
                    assert(files[i].0 != files[n].0);
                }
            }
        }
    }
}

/// A file that a package reads: a core module or an instantiation script.
pub open spec fn is_package_file(f: (Seq<char>, Seq<u8>)) -> bool {
    is_core_name(f.0) || is_script_name(f.0)
}

/// The files that a package reads, in order.
pub open spec fn package_files(files: Seq<(Seq<char>, Seq<u8>)>) -> Seq<(Seq<char>, Seq<u8>)> {
    files.filter(|f: (Seq<char>, Seq<u8>)| is_package_file(f))
}

proof fn lemma_undecodable_last(files: Seq<(Seq<char>, Seq<u8>)>)
    requires
        files.len() > 0,
    ensures
        has_undecodable_script(files) == (has_undecodable_script(files.drop_last())
            || (is_script_name(files.last().0) && !valid_utf8(files.last().1))),
{
    let rest = files.drop_last();
    if has_undecodable_script(files) {
        let i = choose|i: int| 0 <= i < files.len() && is_script_name(#[trigger] files[i].0) && !valid_utf8(files[i].1);
        if i < rest.len() {
            assert(rest[i] == files[i]);
        }
    }
    if has_undecodable_script(rest) {
        let i = choose|i: int| 0 <= i < rest.len() && is_script_name(#[trigger] rest[i].0) && !valid_utf8(rest[i].1);
        assert(rest[i] == files[i]);
    }
    if is_script_name(files.last().0) && !valid_utf8(files.last().1) {
        assert(files[files.len() - 1] == files.last());
    }
}

proof fn lemma_package_files_decide(files: Seq<(Seq<char>, Seq<u8>)>)
    ensures
        core_map(files) == core_map(package_files(files)),
        last_script(files) == last_script(package_files(files)),
        has_undecodable_script(files) == has_undecodable_script(package_files(files)),
    decreases files.len(),
{
    reveal(Seq::filter);
    if files.len() > 0 {
        let rest = files.drop_last();
        let f = files.last();
        lemma_package_files_decide(rest);
        lemma_undecodable_last(files);
        if is_package_file(f) {
            let pf = package_files(files);
            assert(pf =~= package_files(rest).push(f));
            assert(pf.drop_last() =~= package_files(rest));
            lemma_undecodable_last(pf);
        } else {
            assert(package_files(files) =~= package_files(rest));
        }
    }
}

/// Files that are neither core modules nor scripts change nothing: two
/// packages whose core-module and script files agree, in order, load the same
/// modules and script and fail alike.
pub proof fn lemma_other_files_ignored(files: Seq<(Seq<char>, Seq<u8>)>, other: Seq<(Seq<char>, Seq<u8>)>)
    requires
        package_files(files) == package_files(other),
    ensures
        core_map(files) == core_map(other),
        last_script(files) == last_script(other),
        has_undecodable_script(files) == has_undecodable_script(other),
{
    lemma_package_files_decide(files);
    lemma_package_files_decide(other);
}

/// A loaded package: its core modules and the text of its instantiation script.
pub struct Package {
    pub cores: CoreModuleSet,
    pub script: String,
}

impl Package {
    /// Sorts the files of a package into core modules (by the `.wasm` suffix)
    /// and the instantiation script (by the `sync_component.js` suffix); other
    /// files are ignored. Every script file must be UTF-8 text, and the last
    /// one is kept.
    pub fn from_files(files: Vec<(String, Vec<u8>)>) -> (r: Result<Package, BridgeError>)
        ensures
            r is Ok <==> !has_undecodable_script(files_view(files@)) && last_script(files_view(files@)) is Some,
            r matches Ok(p) ==> {
                &&& p.cores.wf()
                &&& p.cores@ == core_map(files_view(files@))
                &&& p.script@ == decode_utf8(last_script(files_view(files@))->Some_0)
            },
            r matches Err(e) ==> if has_undecodable_script(files_view(files@)) {
                e == BridgeError::InvalidEncoding
            } else {
                e == BridgeError::MissingInstantiationScript
            },
    {
        let ghost fv = files_view(files@);
        let mut cores = CoreModuleSet::new();
        let mut script: Option<String> = None;
        let mut i: usize = 0;
        while i < files.len()
            invariant
                fv == files_view(files@),
                i <= files@.len(),
                cores.wf(),
                cores@ == core_map(fv.take(i as int)),
                !has_undecodable_script(fv.take(i as int)),
                script is None <==> last_script(fv.take(i as int)) is None,
                script matches Some(s) ==> s@ == decode_utf8(last_script(fv.take(i as int))->Some_0),
            decreases files@.len() - i,
        {
            let ghost pre = fv.take(i as int);
            let ghost cur = fv.take(i + 1);
            assert(cur.drop_last() =~= pre);
            assert(cur.last() == fv[i as int]);
            let name = &files[i].0;
            let bytes = &files[i].1;
            if has_suffix(name.as_str(), ".wasm") {
                let b = bytes.clone();
                assert(b@ =~= bytes@);
                cores.insert(name.clone(), b);
                assert forall|j: int| 0 <= j < cur.len() && is_script_name(#[trigger] cur[j].0)
                    implies valid_utf8(cur[j].1) by {
                    assert(cur[j] == pre[j]);
                }
            } else if has_suffix(name.as_str(), "sync_component.js") {
                match decode_text(bytes.as_slice()) {
                    Some(text) => {
                        script = Some(text);
                        assert forall|j: int| 0 <= j < cur.len() && is_script_name(#[trigger] cur[j].0)
                            implies valid_utf8(cur[j].1) by {
                            if j < i {
                                assert(cur[j] == pre[j]);
                            }
                        }
                    },
                    None => {
                        assert(is_script_name(fv[i as int].0) && !valid_utf8(fv[i as int].1));
                        return Err(BridgeError::InvalidEncoding);
                    },
                }
            } else {
                assert forall|j: int| 0 <= j < cur.len() && is_script_name(#[trigger] cur[j].0)
                    implies valid_utf8(cur[j].1) by {
                    assert(cur[j] == pre[j]);
                }
            }
            i = i + 1;
        }
        assert(fv.take(i as int) =~= fv);
        match script {
            Some(s) => Ok(Package { cores, script: s }),
            None => Err(BridgeError::MissingInstantiationScript),
        }
    }

    /// The binary that the instantiation script asks for by `name`. A name
    /// outside the package is an error, never another module.
    pub fn core_module(&self, name: &String) -> (r: Result<&Vec<u8>, BridgeError>)
        requires
            self.cores.wf(),
        ensures
            r is Ok <==> self.cores@.contains_key(name@),
            r matches Ok(b) ==> b@ == self.cores@[name@],
            r matches Err(e) ==> e == BridgeError::UnknownCoreModule(*name),
    {
        match self.cores.get(name) {
            Some(b) => Ok(b),
            None => Err(BridgeError::UnknownCoreModule(name.clone())),
        }
    }
}

} // verus!

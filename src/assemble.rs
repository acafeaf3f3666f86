//! Assembly of one library's output: naming, dependency requests, registration
//! of module bodies, and the text pipeline that merges them into one buffer.
use vstd::prelude::*;

use crate::buffer::{
    drop_blank_lines, header_line_1, header_line_2, header_text, is_blank, is_space, join_lines, kept_lines,
    lemma_kept_lines_split, lemma_line_len_no_break, no_break, inject_basefill, inject_comment_header, inject_preloads, preload_text,
    process_depends_references, process_internal_references, remove_blank_lines, remove_comments,
    rewrite_dependency_refs, rewrite_internal_refs, strip_comments, views,
};
use crate::definition::{base_file, DependencySpec, LibraryDefinition};
use crate::preload::{
    create_preload_string, has_value, law_preload_names_distinct, module_file, module_file_path, preload_chunk,
    preload_name, PreloadMapping, PreloadNames,
};
use crate::table::{lookup, table_view};
use crate::text::{append_str, chars_of, string_of};
use crate::version::{best_tag, latest_compatible, parses_as_version, requirement_or_wildcard, tag_views};

verus! {

/// What can go wrong while building a library or one of its dependencies.
#[derive(PartialEq, Eq, Structural, Clone, Copy, Debug)]
pub enum BuildError {
    /// The folder holds no definition file.
    InvalidLibraryPath,
    /// The definition file does not read as a definition.
    MalformedDefinition,
    /// A dependency's version requirement does not read as one.
    InvalidVersionRequirement,
    /// No tag of the dependency meets its requirement.
    NoMatchingVersion,
    /// The local registry holds no library of that name.
    DependencyNotFound,
    /// No local registry folder is configured.
    MissingRegistry,
    /// The dependency's repository could not be cloned.
    FetchFailed,
    /// The matching tag could not be checked out.
    CheckoutFailed,
    /// An asset that the source names is not there.
    MissingAssetFile,
    /// The output file could not be written.
    WriteFailed,
    /// A dependency leads back to a library that is still being built.
    CyclicDependency,
    /// The build has used every module serial number.
    OutOfIdentifiers,
}

/// How a top-level build names and cleans its output.
pub struct BuildOptions {
    /// A name to give the output in place of the library's.
    pub compiled_name: Option<String>,
    /// Whether the library's version goes into the output's name.
    pub name_with_version: bool,
    /// Whether comments are removed from the output.
    pub remove_comments: bool,
}

/// The file name of a build's output. A dependency's is always
/// `name-version.lua`; a top-level one is the override name, else
/// `name-version` where asked for, else the bare name, with `.lua`.
pub open spec fn output_name(name: Seq<char>, version: Seq<char>, dep: bool, compiled_name: Option<Seq<char>>, with_version: bool) -> Seq<char> {
    if dep {
        name + "-"@ + version + ".lua"@
    } else if compiled_name is Some {
        compiled_name->0 + ".lua"@
    } else if with_version {
        name + "-"@ + version + ".lua"@
    } else {
        name + ".lua"@
    }
}

/// The output file name for the library `def`, built as a dependency or not.
pub fn compiled_file_name(def: &LibraryDefinition, dep: bool, options: &BuildOptions) -> (r: String)
    ensures
        r@ == output_name(def.name@, def.version@, dep, match options.compiled_name {
            Some(n) => Some(n@),
            None => None,
        }, options.name_with_version),
{
    if !dep {
        match &options.compiled_name {
            Some(n) => {
                let mut out = chars_of(n.as_str());
                append_str(&mut out, ".lua");
                return string_of(&out);
            },
            None => {},
        }
    }
    let mut out = chars_of(def.name.as_str());
    if dep || options.name_with_version {
        append_str(&mut out, "-");
        append_str(&mut out, def.version.as_str());
    }
    append_str(&mut out, ".lua");
    string_of(&out)
}

/// The key under which a library's version is cached: `name-version`.
pub fn cache_key(name: &str, version: &str) -> (r: String)
    ensures
        r@ == name@ + "-"@ + version@,
{
    let mut out = chars_of(name);
    append_str(&mut out, "-");
    append_str(&mut out, version);
    string_of(&out)
}

/// What resolving one dependency entry asks for.
pub struct DependencyRequest {
    /// The name the library's source refers to the dependency by.
    pub reference: String,
    /// The name of the library to look up.
    pub library: String,
    /// The version requirement to meet.
    pub requirement: String,
    /// Whether the declared requirement was unreadable and the wildcard used instead.
    pub requirement_replaced: bool,
}

/// The request for the dependency entry `reference`: the library it names
/// (the reference itself where it names none), and its requirement, or the
/// wildcard where it declares none or an unreadable one.
pub fn dependency_request(reference: &String, spec: &DependencySpec) -> (r: DependencyRequest)
    ensures
        r.reference@ == reference@,
        r.library@ == match spec.name {
            Some(n) => n@,
            None => reference@,
        },
        match spec.version {
            Some(v) => if parses_as_version(v@) {
                r.requirement@ == v@ && !r.requirement_replaced
            } else {
                r.requirement@ == "*"@ && r.requirement_replaced
            },
            None => r.requirement@ == "*"@ && !r.requirement_replaced,
        },
{
    let library = match &spec.name {
        Some(n) => n.clone(),
        None => reference.clone(),
    };
    let (requirement, replaced) = requirement_or_wildcard(&spec.version);
    DependencyRequest { reference: reference.clone(), library, requirement, requirement_replaced: replaced }
}

/// The version of the library `library` to use, out of its tags, with the
/// cache key of that version; `NoMatchingVersion` where no tag qualifies.
pub fn choose_version(library: &str, tags: &Vec<String>, requirement: &str) -> (r: Result<(String, String), BuildError>)
    ensures
        match r {
            Ok((v, key)) => parses_as_version(requirement@) && best_tag(tag_views(tags@), requirement@) == Some(v@)
                && key@ == library@ + "-"@ + v@,
            Err(e) => e == BuildError::NoMatchingVersion && (!parses_as_version(requirement@) || best_tag(
                tag_views(tags@),
                requirement@,
            ) is None),
        },
{
    match latest_compatible(tags, requirement) {
        Some(v) => {
            let key = cache_key(library, v.as_str());
            Ok((v, key))
        },
        None => Err(BuildError::NoMatchingVersion),
    }
}

/// The module files a build reads, in the order of the definition: for each
/// entry of `modules`, the key it is registered under (its dotted file path)
/// and the file's path relative to the library root.
pub fn module_reads(def: &LibraryDefinition) -> (r: Vec<(String, String)>)
    ensures
        r@.len() == def.modules@.len(),
        forall|i: int|
            0 <= i < r@.len() ==> (#[trigger] r@[i]).0@ == def.modules@[i].1@ && r@[i].1@ == module_file(
                def.modules@[i].1@,
            ),
{
    let mut r: Vec<(String, String)> = Vec::new();
    let mut i: usize = 0;
    while i < def.modules.len()
        invariant
            0 <= i <= def.modules.len(),
            r@.len() == i,
            forall|j: int|
                0 <= j < i ==> (#[trigger] r@[j]).0@ == def.modules@[j].1@ && r@[j].1@ == module_file(
                    def.modules@[j].1@,
                ),
        decreases def.modules.len() - i,
    {
        let file = &def.modules[i].1;
        let path = module_file_path(file.as_str());
        r.push((file.clone(), path));
        i = i + 1;
    }
    r
}

/// The dependency requests of a build, in the order of the definition.
pub fn dependency_requests(def: &LibraryDefinition) -> (r: Vec<DependencyRequest>)
    ensures
        r@.len() == def.dependencies@.len(),
        forall|i: int|
            0 <= i < r@.len() ==> (#[trigger] r@[i]).reference@ == def.dependencies@[i].0@ && r@[i].library@ == match def.dependencies@[i].1.name {
                Some(n) => n@,
                None => def.dependencies@[i].0@,
            } && match def.dependencies@[i].1.version {
                Some(v) => if parses_as_version(v@) {
                    r@[i].requirement@ == v@ && !r@[i].requirement_replaced
                } else {
                    r@[i].requirement@ == "*"@ && r@[i].requirement_replaced
                },
                None => r@[i].requirement@ == "*"@ && !r@[i].requirement_replaced,
            },
{
    let mut r: Vec<DependencyRequest> = Vec::new();
    let mut i: usize = 0;
    while i < def.dependencies.len()
        invariant
            0 <= i <= def.dependencies.len(),
            r@.len() == i,
            forall|j: int|
                0 <= j < i ==> (#[trigger] r@[j]).reference@ == def.dependencies@[j].0@ && r@[j].library@ == match def.dependencies@[j].1.name {
                    Some(n) => n@,
                    None => def.dependencies@[j].0@,
                } && match def.dependencies@[j].1.version {
                    Some(v) => if parses_as_version(v@) {
                        r@[j].requirement@ == v@ && !r@[j].requirement_replaced
                    } else {
                        r@[j].requirement@ == "*"@ && r@[j].requirement_replaced
                    },
                    None => r@[j].requirement@ == "*"@ && !r@[j].requirement_replaced,
                },
        decreases def.dependencies.len() - i,
    {
        let entry = &def.dependencies[i];
        let request = dependency_request(&entry.0, &entry.1);
        r.push(request);
        i = i + 1;
    }
    r
}

/// An entry whose identifier was issued, for some library, with a serial below `n`.
pub open spec fn issued_before(entry: (Seq<char>, Seq<char>), n: nat) -> bool {
    exists|lib: Seq<char>, s: nat| s < n && s <= u64::MAX && entry.1 == #[trigger] preload_name(lib, s)
}

/// The module bodies of one build and the identifiers they load under.
pub struct ModuleSet {
    /// One module body per registered key, in registration order.
    pub chunks: Vec<String>,
    /// The identifier of each registered key.
    pub mapping: PreloadMapping,
}

impl ModuleSet {
    /// Each registered key has one module body.
    pub open spec fn wf(&self) -> bool {
        self.mapping.wf() && self.chunks@.len() == self.mapping@.len()
    }

    /// Every identifier in the set was issued with a serial below `n`.
    pub open spec fn issued_below(&self, n: nat) -> bool {
        forall|i: int| 0 <= i < self.mapping@.len() ==> issued_before(#[trigger] self.mapping@[i], n)
    }

    /// A set with no modules.
    pub fn new() -> (r: ModuleSet)
        ensures
            r.wf(),
            r.chunks@.len() == 0,
            r.mapping@.len() == 0,
            forall|n: nat| r.issued_below(n),
    {
        ModuleSet { chunks: Vec::new(), mapping: PreloadMapping::new() }
    }

    /// Registers the source `contents` under `key` with the identifier `id`.
    /// A key that is already registered, or an identifier already in use,
    /// changes nothing and gives false.
    fn add_module(&mut self, key: String, contents: &str, id: String) -> (r: bool)
        requires
            old(self).wf(),
        ensures
            final(self).wf(),
            r == (lookup(old(self).mapping@, key@) is None && !has_value(old(self).mapping@, id@)),
            r ==> final(self).mapping@ == old(self).mapping@.push((key@, id@)) && views(final(self).chunks@) == views(
                old(self).chunks@,
            ).push(preload_chunk(contents@, id@)),
            !r ==> final(self).mapping@ == old(self).mapping@ && final(self).chunks@ == old(self).chunks@,
    {
        let chunk = create_preload_string(contents, id.as_str());
        let ok = self.mapping.insert(key, id);
        if ok {
            let ghost before = views(self.chunks@);
            self.chunks.push(chunk);
            assert(views(self.chunks@) =~= before.push(chunk@));
        }
        ok
    }

    /// Registers the source `contents` under `key`, loaded under the next
    /// identifier that `names` issues for the library `library_name`. A key
    /// that is already registered keeps its one module body: nothing changes
    /// and the result is false, as it is once the serials are exhausted.
    pub fn register(&mut self, names: &mut PreloadNames, key: String, contents: &str, library_name: &str) -> (r: bool)
        requires
            old(self).wf(),
            old(self).issued_below(old(names)@),
        ensures
            final(self).wf(),
            final(self).issued_below(final(names)@),
            r == (lookup(old(self).mapping@, key@) is None && !old(names).exhausted()),
            r ==> final(self).mapping@ == old(self).mapping@.push((key@, preload_name(library_name@, old(names)@)))
                && views(final(self).chunks@) == views(old(self).chunks@).push(
                preload_chunk(contents@, preload_name(library_name@, old(names)@)),
            ) && final(names)@ == old(names)@ + 1,
            !r ==> final(self).mapping@ == old(self).mapping@ && final(self).chunks@ == old(self).chunks@
                && final(names)@ == old(names)@,
    {
        if self.mapping.get(key.as_str()).is_some() {
            return false;
        }
        let ghost n = names@;
        match names.issue(library_name) {
            None => false,
            Some(id) => {
                let ghost m = self.mapping@;
                proof {
                    assert forall|i: int| 0 <= i < m.len() implies m[i].1 != id@ by {
                        assert(issued_before(m[i], n));
                        let (lib, s) = choose|lib: Seq<char>, s: nat|
                            s < n && s <= u64::MAX && m[i].1 == #[trigger] preload_name(lib, s);
                        law_preload_names_distinct(lib, s, library_name@, n);
                    }
                }
                let ok = self.add_module(key, contents, id);
                assert(ok);
                proof {
                    assert forall|i: int| 0 <= i < self.mapping@.len() implies issued_before(
                        #[trigger] self.mapping@[i],
                        names@,
                    ) by {
                        if i < m.len() {
                            assert(issued_before(m[i], n));
                            let (lib, s) = choose|lib: Seq<char>, s: nat|
                                s < n && s <= u64::MAX && m[i].1 == #[trigger] preload_name(lib, s);
                            assert(self.mapping@[i] == m[i]);
                            assert(s < names@ && s <= u64::MAX && self.mapping@[i].1 == preload_name(lib, s));
                        } else {
                            assert(self.mapping@[i].1 == preload_name(library_name@, n));
                        }
                    }
                }
                true
            },
        }
    }
}

/// Whether one of the registrations holds the key `k`.
pub open spec fn holds_key(regs: Seq<(Seq<char>, Seq<char>, Seq<char>)>, k: Seq<char>) -> bool {
    exists|j: int| 0 <= j < regs.len() && (#[trigger] regs[j]).0 == k
}

/// What registering each `(key, source)` of `items` in order, into an empty
/// set, with serials from `start` on, keeps: for each key the first time it
/// comes, its key, its source and its identifier. A key that comes again is
/// skipped and uses no serial.
pub open spec fn registrations(items: Seq<(Seq<char>, Seq<char>)>, library_name: Seq<char>, start: nat) -> Seq<
    (Seq<char>, Seq<char>, Seq<char>),
>
    decreases items.len(),
{
    if items.len() == 0 {
        Seq::empty()
    } else {
        let prev = registrations(items.drop_last(), library_name, start);
        let item = items.last();
        if holds_key(prev, item.0) {
            prev
        } else {
            prev.push((item.0, item.1, preload_name(library_name, start + prev.len())))
        }
    }
}

/// The keys and identifiers of registrations.
pub open spec fn registration_ids(regs: Seq<(Seq<char>, Seq<char>, Seq<char>)>) -> Seq<(Seq<char>, Seq<char>)> {
    regs.map_values(|r: (Seq<char>, Seq<char>, Seq<char>)| (r.0, r.2))
}

/// The module bodies of registrations.
pub open spec fn registration_chunks(regs: Seq<(Seq<char>, Seq<char>, Seq<char>)>) -> Seq<Seq<char>> {
    regs.map_values(|r: (Seq<char>, Seq<char>, Seq<char>)| preload_chunk(r.1, r.2))
}

/// The pairs of views of a list of string pairs.
pub open spec fn pair_views(v: Seq<(String, String)>) -> Seq<(Seq<char>, Seq<char>)> {
    v.map_values(|p: (String, String)| (p.0@, p.1@))
}

proof fn lemma_holds_key_lookup(regs: Seq<(Seq<char>, Seq<char>, Seq<char>)>, k: Seq<char>)
    ensures
        holds_key(regs, k) == (lookup(registration_ids(regs), k) is Some),
{
    crate::table::lemma_lookup_some(registration_ids(regs), k);
    if holds_key(regs, k) {
        let j = choose|j: int| 0 <= j < regs.len() && (#[trigger] regs[j]).0 == k;
        assert(registration_ids(regs)[j].0 == k);
    }
    if lookup(registration_ids(regs), k) is Some {
        let j = choose|j: int| 0 <= j < registration_ids(regs).len() && registration_ids(regs)[j].0 == k;
        assert(regs[j].0 == k);
    }
}

impl ModuleSet {
    /// Registers each `(key, source)` of `items` in order into this empty set:
    /// one module body for each key, the first time it comes, under
    /// identifiers with consecutive serials.
    pub fn register_all(
        &mut self,
        names: &mut PreloadNames,
        items: &Vec<(String, String)>,
        library_name: &str,
    )
        requires
            old(self).wf(),
            old(self).mapping@.len() == 0,
            old(names)@ + items@.len() <= u64::MAX,
        ensures
            final(self).wf(),
            final(self).issued_below(final(names)@),
            final(self).mapping@ == registration_ids(registrations(pair_views(items@), library_name@, old(names)@)),
            views(final(self).chunks@) == registration_chunks(
                registrations(pair_views(items@), library_name@, old(names)@),
            ),
            final(names)@ == old(names)@ + registrations(pair_views(items@), library_name@, old(names)@).len(),
    {
        let ghost start = names@;
        let ghost all = pair_views(items@);
        let mut i: usize = 0;
        assert(all.take(0) =~= Seq::<(Seq<char>, Seq<char>)>::empty());
        assert(self.mapping@ =~= registration_ids(Seq::empty()));
        assert(views(self.chunks@) =~= registration_chunks(Seq::empty()));
        while i < items.len()
            invariant
                0 <= i <= items.len(),
                all == pair_views(items@),
                start + items@.len() <= u64::MAX,
                self.wf(),
                self.issued_below(names@),
                self.mapping@ == registration_ids(registrations(all.take(i as int), library_name@, start)),
                views(self.chunks@) == registration_chunks(registrations(all.take(i as int), library_name@, start)),
                names@ == start + registrations(all.take(i as int), library_name@, start).len(),
                registrations(all.take(i as int), library_name@, start).len() <= i,
            decreases items.len() - i,
        {
            let ghost prev = registrations(all.take(i as int), library_name@, start);
            assert(all.take(i as int + 1).drop_last() =~= all.take(i as int));
            assert(all.take(i as int + 1).last() == all[i as int]);
            proof {
                lemma_holds_key_lookup(prev, all[i as int].0);
            }
            let key = items[i].0.clone();
            let ghost before_chunks = views(self.chunks@);
            let ok = self.register(names, key, items[i].1.as_str(), library_name);
            proof {
                if ok {
                    let next = prev.push((all[i as int].0, all[i as int].1, preload_name(library_name@, start + prev.len())));
                    assert(registration_ids(next) =~= registration_ids(prev).push(
                        (all[i as int].0, preload_name(library_name@, start + prev.len())),
                    ));
                    assert(registration_chunks(next) =~= registration_chunks(prev).push(
                        preload_chunk(all[i as int].1, preload_name(library_name@, start + prev.len())),
                    ));
                }
            }
            i = i + 1;
        }
        assert(all.take(items.len() as int) =~= all);
    }
}

/// Two builds that register the same items for the same library, with serials
/// starting anywhere, register the same keys with the same sources in the same
/// order, and differ only in the identifiers: each one's serials are
/// consecutive from its start.
pub proof fn law_builds_differ_only_in_identifiers(
    items: Seq<(Seq<char>, Seq<char>)>,
    library_name: Seq<char>,
    s1: nat,
    s2: nat,
)
    ensures
        registrations(items, library_name, s1).len() == registrations(items, library_name, s2).len(),
        forall|j: int|
            0 <= j < registrations(items, library_name, s1).len() ==> {
                let a = #[trigger] registrations(items, library_name, s1)[j];
                let b = registrations(items, library_name, s2)[j];
                &&& a.0 == b.0
                &&& a.1 == b.1
                &&& a.2 == preload_name(library_name, (s1 + j) as nat)
                &&& b.2 == preload_name(library_name, (s2 + j) as nat)
            },
    decreases items.len(),
{
    if items.len() > 0 {
        let p1 = registrations(items.drop_last(), library_name, s1);
        let p2 = registrations(items.drop_last(), library_name, s2);
        law_builds_differ_only_in_identifiers(items.drop_last(), library_name, s1, s2);
        let k = items.last().0;
        if holds_key(p1, k) {
            let j = choose|j: int| 0 <= j < p1.len() && (#[trigger] p1[j]).0 == k;
            assert(p2[j].0 == k);
        }
        if holds_key(p2, k) {
            let j = choose|j: int| 0 <= j < p2.len() && (#[trigger] p2[j]).0 == k;
            assert(p1[j].0 == k);
        }
    }
}

/// The libraries being built, outermost first, each by its `name-version` key.
pub struct BuildTrail {
    keys: Vec<String>,
}

impl View for BuildTrail {
    type V = Seq<Seq<char>>;

    closed spec fn view(&self) -> Seq<Seq<char>> {
        views(self.keys@)
    }
}

impl BuildTrail {
    /// A trail with no library on it.
    pub fn new() -> (r: BuildTrail)
        ensures
            r@ == Seq::<Seq<char>>::empty(),
    {
        BuildTrail { keys: Vec::new() }
    }

    /// How many builds are under way.
    pub fn depth(&self) -> (r: usize)
        ensures
            r == self@.len(),
    {
        self.keys.len()
    }

    /// Starts the build of `key`; a key that is already being built is a
    /// cycle, and leaves the trail as it is.
    pub fn enter(&mut self, key: String) -> (r: Result<(), BuildError>)
        ensures
            old(self)@.contains(key@) ==> r == Err::<(), BuildError>(BuildError::CyclicDependency) && final(self)@
                == old(self)@,
            !old(self)@.contains(key@) ==> r is Ok && final(self)@ == old(self)@.push(key@),
    {
        let k = chars_of(key.as_str());
        let mut i: usize = 0;
        while i < self.keys.len()
            invariant
                0 <= i <= self.keys.len(),
                k@ == key@,
                forall|j: int| 0 <= j < i ==> self@[j] != key@,
            decreases self.keys.len() - i,
        {
            let e = chars_of(self.keys[i].as_str());
            assert(self@[i as int] == self.keys@[i as int]@);
            if crate::text::chars_eq(&e, &k) {
                return Err(BuildError::CyclicDependency);
            }
            i = i + 1;
        }
        let ghost before = self@;
        self.keys.push(key);
        assert(self@ =~= before.push(key@));
        Ok(())
    }

    /// Ends the innermost build.
    pub fn leave(&mut self)
        ensures
            final(self)@ == if old(self)@.len() == 0 {
                old(self)@
            } else {
                old(self)@.drop_last()
            },
    {
        let ghost before = self@;
        if self.keys.len() > 0 {
            self.keys.pop();
            assert(self@ =~= before.drop_last());
        }
    }
}

/// The output of a build: the header, the module bodies and the base block,
/// with comments removed where asked, blank lines dropped, and both kinds of
/// references rewritten into module loads.
pub open spec fn library_text(
    def: LibraryDefinition,
    chunks: Seq<Seq<char>>,
    ids: Seq<(Seq<char>, Seq<char>)>,
    strip: bool,
) -> Seq<char> {
    let modules = table_view(def.modules@);
    let merged = header_text() + preload_text(chunks) + seq!['\n'] + base_file(
        def.name@,
        def.user@,
        def.author@,
        def.version@,
        modules,
        ids,
    );
    let cleaned = drop_blank_lines(if strip { strip_comments(merged) } else { merged });
    rewrite_internal_refs(rewrite_dependency_refs(cleaned, ids), modules, ids)
}

/// Merges the header, the module bodies of `modules` and the base block of
/// `def` into one buffer, and runs the text passes over it.
pub fn compile_buffer(def: &LibraryDefinition, modules: &ModuleSet, strip_comments: bool) -> (r: String)
    ensures
        r@ == library_text(*def, views(modules.chunks@), modules.mapping@, strip_comments),
{
    let mut buffer = string_of(&Vec::new());
    inject_comment_header(&mut buffer);
    inject_preloads(&mut buffer, &modules.chunks);
    let base = def.to_compiled_base_file(&modules.mapping);
    inject_basefill(&mut buffer, base.as_str());
    if strip_comments {
        remove_comments(&mut buffer);
    }
    remove_blank_lines(&mut buffer);
    process_depends_references(&mut buffer, &modules.mapping);
    process_internal_references(&mut buffer, &def.modules, &modules.mapping);
    assert(Seq::<char>::empty() + header_text() =~= header_text());
    buffer
}

/// A definition without modules, built with no module bodies, no
/// identifiers and comments kept, gives the two header lines, the empty
/// library table, then the non-blank lines of its identity fields and the
/// return, joined by line breaks: no module is loaded.
pub proof fn law_plain_definition_output(def: LibraryDefinition)
    requires
        def.modules@.len() == 0,
    ensures
        library_text(def, Seq::empty(), Seq::empty(), false) == join_lines(
            seq![header_line_1(), header_line_2(), "local library = {}"@] + kept_lines(
                crate::definition::identity_text(def.name@, def.user@, def.author@, def.version@)
                    + "\nreturn library\n"@,
            ),
        ),
{
    let modules = table_view(def.modules@);
    assert(modules =~= Seq::<(Seq<char>, Seq<char>)>::empty());
    let ids = Seq::<(Seq<char>, Seq<char>)>::empty();
    assert(crate::definition::fresh_tables(crate::definition::table_candidates(modules), modules) =~= Seq::<
        Seq<char>,
    >::empty());
    assert(crate::definition::table_lines(Seq::<Seq<char>>::empty(), 0) =~= Seq::<char>::empty());
    assert(crate::definition::require_lines(modules, ids, 0) =~= Seq::<char>::empty());
    assert(crate::definition::binding_lines(Seq::<Seq<char>>::empty(), modules, ids, 0) =~= Seq::<char>::empty());
    assert(crate::definition::binding_lines(Seq::<Seq<char>>::empty(), modules, ids, 1) =~= Seq::<char>::empty());
    assert(preload_text(Seq::<Seq<char>>::empty()) =~= Seq::<char>::empty());
    let l1 = header_line_1();
    let l2 = header_line_2();
    let lb = "local library = {}"@;
    let rest = crate::definition::identity_text(def.name@, def.user@, def.author@, def.version@)
        + "\nreturn library\n"@;
    let merged = header_text() + preload_text(Seq::empty()) + seq!['\n'] + base_file(
        def.name@,
        def.user@,
        def.author@,
        def.version@,
        modules,
        ids,
    );
    let e = Seq::<char>::empty();
    assert(merged =~= e + seq!['\n'] + (l1 + seq!['\n'] + (l2 + seq!['\n'] + (e + seq!['\n'] + (e + seq!['\n'] + (
    lb + seq!['\n'] + rest))))));
    proof_header_lines_plain();
    assert(no_break(e));
    lemma_kept_lines_split(lb, rest);
    lemma_kept_lines_split(e, lb + seq!['\n'] + rest);
    lemma_kept_lines_split(e, e + seq!['\n'] + (lb + seq!['\n'] + rest));
    lemma_kept_lines_split(l2, e + seq!['\n'] + (e + seq!['\n'] + (lb + seq!['\n'] + rest)));
    lemma_kept_lines_split(l1, l2 + seq!['\n'] + (e + seq!['\n'] + (e + seq!['\n'] + (lb + seq!['\n'] + rest))));
    lemma_kept_lines_split(e, l1 + seq!['\n'] + (l2 + seq!['\n'] + (e + seq!['\n'] + (e + seq!['\n'] + (lb
        + seq!['\n'] + rest)))));
    assert(kept_lines(e) =~= Seq::<Seq<char>>::empty()) by {
        assert(is_blank(e));
        assert(e.take(0) =~= e);
    };
    assert(kept_lines(l1) =~= seq![l1]) by {
        lemma_line_len_no_break(l1, Seq::empty());
        assert(l1 + Seq::<char>::empty() =~= l1);
        assert(l1.take(l1.len() as int) =~= l1);
    };
    assert(kept_lines(l2) =~= seq![l2]) by {
        lemma_line_len_no_break(l2, Seq::empty());
        assert(l2 + Seq::<char>::empty() =~= l2);
        assert(l2.take(l2.len() as int) =~= l2);
    };
    assert(kept_lines(lb) =~= seq![lb]) by {
        lemma_line_len_no_break(lb, Seq::empty());
        assert(lb + Seq::<char>::empty() =~= lb);
        assert(lb.take(lb.len() as int) =~= lb);
    };
    assert(kept_lines(merged) =~= seq![l1, l2, lb] + kept_lines(rest));
    let cleaned = drop_blank_lines(merged);
    crate::buffer::lemma_dependency_refs_unmapped(cleaned);
    crate::buffer::lemma_internal_refs_unmapped(cleaned, modules);
}

/// The header lines and the empty table line hold no line break and are not blank.
proof fn proof_header_lines_plain()
    ensures
        no_break(header_line_1()),
        !is_blank(header_line_1()),
        no_break(header_line_2()),
        !is_blank(header_line_2()),
        no_break("local library = {}"@),
        !is_blank("local library = {}"@),
{
    reveal_strlit("-- built with ");
    reveal_strlit("lmake");
    reveal_strlit(" (");
    reveal_strlit("0.1.0");
    reveal_strlit(") <");
    reveal_strlit("https://github.com/snsvrno/lmake-rs");
    reveal_strlit(">");
    reveal_strlit("-- a tool for compiling lua libraries from multiple source files and dependencies");
    reveal_strlit("local library = {}");
    let l1 = header_line_1();
    assert(l1 =~= seq!['-', '-', ' ', 'b', 'u', 'i', 'l', 't', ' ', 'w', 'i', 't', 'h', ' ', 'l', 'm', 'a', 'k', 'e', ' ', '(', '0', '.', '1', '.', '0', ')', ' ', '<'] + "https://github.com/snsvrno/lmake-rs"@ + seq!['>']);
    assert(!is_space(l1[0]));
    assert(!is_space(header_line_2()[0]));
    assert(!is_space("local library = {}"@[0]));
}

} // verus!

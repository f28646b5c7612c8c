//! The manifest resolver: from one version's detailed manifest and a
//! platform descriptor to the flat list of artifacts a launch needs.
//!
//! Each library may carry platform-conditional rules.  Evaluation starts
//! from "allow" and applies every rule whose platform predicate matches, in
//! order, so the last matching rule wins; a library without rules is
//! unconditionally included.  An allowed library contributes its primary
//! artifact and, when its natives directive names a classifier for the
//! platform's operating system, that native bundle as well, tagged for
//! extraction with the library's exclusion patterns.  The main jar and the
//! asset index are mandatory: a manifest that lacks either yields an error
//! on every platform.

use vstd::prelude::*;

verus! {

/// A downloadable file: its install path, the integrity contract (sha1
/// checksum and byte size) a downloader must verify, and where it lives.
pub struct Artifact {
    pub path: String,
    pub sha1: String,
    pub size: usize,
    pub url: String,
}

impl Clone for Artifact {
    fn clone(&self) -> (r: Self)
        ensures
            r == *self,
    {
        Artifact {
            path: self.path.clone(),
            sha1: self.sha1.clone(),
            size: self.size,
            url: self.url.clone(),
        }
    }
}

/// The asset-index reference of a manifest: which asset collection the
/// version uses and where its index document lives.
pub struct AssetIndex {
    pub id: String,
    pub sha1: String,
    pub size: usize,
    pub total_size: usize,
    pub url: String,
}

impl Clone for AssetIndex {
    fn clone(&self) -> (r: Self)
        ensures
            r == *self,
    {
        AssetIndex {
            id: self.id.clone(),
            sha1: self.sha1.clone(),
            size: self.size,
            total_size: self.total_size,
            url: self.url.clone(),
        }
    }
}

/// An operating-system family a rule or a natives directive can name.
#[derive(PartialEq, Eq, Structural, Clone, Copy)]
pub enum OsName {
    Windows,
    Linux,
    Osx,
}

/// Which platforms one rule applies to: every platform, or one OS family.
#[derive(PartialEq, Eq, Structural, Clone, Copy)]
pub enum OsSelector {
    AnyOs,
    OsIs(OsName),
}

/// What a matching rule does to the current verdict.
#[derive(PartialEq, Eq, Structural, Clone, Copy)]
pub enum RuleAction {
    Allow,
    Disallow,
}

/// One platform-conditional rule of a library.
#[derive(PartialEq, Eq, Structural, Clone, Copy)]
pub struct Rule {
    pub action: RuleAction,
    pub os: OsSelector,
}

/// The platform the resolver evaluates against.
#[derive(PartialEq, Eq, Structural, Clone, Copy)]
pub struct Platform {
    pub os: OsName,
}

/// One native-bundle artifact of a library, under its classifier key.
pub struct ClassifierEntry {
    pub key: String,
    pub artifact: Artifact,
}

/// One natives directive: which classifier key serves this OS family.
pub struct NativeEntry {
    pub os: OsName,
    pub classifier: String,
}

/// The downloads block of a library: the required primary artifact and the
/// per-platform native bundles, if any.
pub struct LibDownload {
    pub artifact: Artifact,
    pub classifiers: Vec<ClassifierEntry>,
}

/// One library descriptor of a manifest.  An empty `rules` list means the
/// library is unconditional; `extract_exclude` lists path prefixes to skip
/// when a native bundle is unpacked.
pub struct Library {
    pub name: String,
    pub downloads: LibDownload,
    pub rules: Vec<Rule>,
    pub natives: Vec<NativeEntry>,
    pub extract_exclude: Vec<String>,
}

/// The version's own jars, as the manifest publishes them.
pub struct Downloads {
    pub client: Option<Artifact>,
    pub server: Option<Artifact>,
}

/// Argument templates, kept verbatim as opaque text; their schema is not
/// modelled and nothing downstream reads them yet.
pub struct Arguments {
    pub game: Vec<String>,
    pub jvm: Vec<String>,
}

/// One version's detailed manifest.  `logging` is an opaque payload kept
/// verbatim; `kind` is the release channel (the JSON field `type`).
pub struct VersionInfo {
    pub id: String,
    pub arguments: Arguments,
    pub asset_index: Option<AssetIndex>,
    pub assets: String,
    pub compliance_level: usize,
    pub downloads: Downloads,
    pub logging: String,
    pub libraries: Vec<Library>,
    pub main_class: String,
    pub minimum_launcher_version: usize,
    pub release_time: String,
    pub time: String,
    pub kind: String,
}

/// The one failure a resolution can report: a mandatory artifact (main jar
/// or asset index) is not reachable.
#[derive(PartialEq, Eq, Structural, Clone, Copy, Debug)]
pub enum ResolveError {
    UnsupportedPlatform,
}

/// One artifact the platform needs: the file itself, whether it is a
/// native bundle, and, for native bundles, the extraction exclusions.
pub struct ResolvedArtifact {
    pub artifact: Artifact,
    pub native: bool,
    pub exclude: Vec<String>,
}

/// The mathematical image of one resolved artifact.
pub struct ResolvedView {
    pub path: Seq<char>,
    pub sha1: Seq<char>,
    pub size: nat,
    pub url: Seq<char>,
    pub native: bool,
    pub exclude: Seq<Seq<char>>,
}

/// The image of an artifact emitted with the given tagging.
pub open spec fn artifact_resolved(a: Artifact, native: bool, exclude: Seq<Seq<char>>) -> ResolvedView {
    ResolvedView {
        path: a.path@,
        sha1: a.sha1@,
        size: a.size as nat,
        url: a.url@,
        native: native,
        exclude: exclude,
    }
}

/// The image of a concrete resolved artifact.
pub open spec fn resolved_view(r: ResolvedArtifact) -> ResolvedView {
    artifact_resolved(r.artifact, r.native, r.exclude.deep_view())
}

/// The images of a whole result list.
pub open spec fn views_of(s: Seq<ResolvedArtifact>) -> Seq<ResolvedView> {
    s.map_values(|x: ResolvedArtifact| resolved_view(x))
}

/// Whether a rule's platform predicate matches the platform.
pub open spec fn rule_matches(r: Rule, p: Platform) -> bool {
    match r.os {
        OsSelector::AnyOs => true,
        OsSelector::OsIs(o) => o == p.os,
    }
}

/// The verdict of a rule list: allow by default, each matching rule
/// overrides in order, the last matching rule wins.
pub open spec fn rules_allow(rules: Seq<Rule>, p: Platform) -> bool
    decreases rules.len(),
{
    if rules.len() == 0 {
        true
    } else if rule_matches(rules.last(), p) {
        rules.last().action == RuleAction::Allow
    } else {
        rules_allow(rules.drop_last(), p)
    }
}

/// Whether the platform includes this library at all.
pub open spec fn lib_allowed(lib: Library, p: Platform) -> bool {
    rules_allow(lib.rules@, p)
}

/// The classifier key the natives directive names for this OS family:
/// the first entry for the family, if there is one.
pub open spec fn native_key(natives: Seq<NativeEntry>, os: OsName) -> Option<Seq<char>>
    decreases natives.len(),
{
    if natives.len() == 0 {
        Option::None
    } else if natives[0].os == os {
        Option::Some(natives[0].classifier@)
    } else {
        native_key(natives.drop_first(), os)
    }
}

/// The first classifier artifact under the given key, if any.
pub open spec fn classifier_for(cls: Seq<ClassifierEntry>, key: Seq<char>) -> Option<Artifact>
    decreases cls.len(),
{
    if cls.len() == 0 {
        Option::None
    } else if cls[0].key@ == key {
        Option::Some(cls[0].artifact)
    } else {
        classifier_for(cls.drop_first(), key)
    }
}

/// The native bundle this platform takes from the library, if any: the
/// natives directive names a classifier key for the OS family and a
/// classifier under that key exists.
pub open spec fn native_artifact(lib: Library, p: Platform) -> Option<Artifact> {
    match native_key(lib.natives@, p.os) {
        Option::Some(k) => classifier_for(lib.downloads.classifiers@, k),
        Option::None => Option::None,
    }
}

/// What one library contributes: nothing when the rules exclude it; its
/// primary artifact, plus its native bundle when the platform has one.
pub open spec fn lib_items(lib: Library, p: Platform) -> Seq<ResolvedView> {
    if !lib_allowed(lib, p) {
        Seq::empty()
    } else {
        let primary = seq![artifact_resolved(lib.downloads.artifact, false, Seq::empty())];
        match native_artifact(lib, p) {
            Option::Some(a) => primary.push(
                artifact_resolved(a, true, lib.extract_exclude.deep_view()),
            ),
            Option::None => primary,
        }
    }
}

/// The contributions of a whole library list, in manifest order.
pub open spec fn libs_items(libs: Seq<Library>, p: Platform) -> Seq<ResolvedView>
    decreases libs.len(),
{
    if libs.len() == 0 {
        Seq::empty()
    } else {
        libs_items(libs.drop_last(), p) + lib_items(libs.last(), p)
    }
}

/// The asset-index document as a resolved artifact: it installs under its
/// identifier and carries its own checksum and size.
pub open spec fn asset_index_resolved(a: AssetIndex) -> ResolvedView {
    ResolvedView {
        path: a.id@,
        sha1: a.sha1@,
        size: a.size as nat,
        url: a.url@,
        native: false,
        exclude: Seq::empty(),
    }
}

/// The full resolution: an error when a mandatory artifact (main jar or
/// asset index) is missing, else the main jar, the asset index, and every
/// allowed library's contribution, in manifest order.
pub open spec fn spec_resolve(m: VersionInfo, p: Platform) -> Result<
    Seq<ResolvedView>,
    ResolveError,
> {
    match (m.downloads.client, m.asset_index) {
        (Option::Some(c), Option::Some(ai)) => Result::Ok(
            seq![artifact_resolved(c, false, Seq::empty()), asset_index_resolved(ai)]
                + libs_items(m.libraries@, p),
        ),
        _ => Result::Err(ResolveError::UnsupportedPlatform),
    }
}

/// Copies a list of strings, value for value.
fn clone_string_vec(v: &Vec<String>) -> (r: Vec<String>)
    ensures
        r@ == v@,
{
    let mut out: Vec<String> = Vec::new();
    let mut i: usize = 0;
    proof {
        assert(v@.take(0) =~= Seq::<String>::empty());
    }
    while i < v.len()
        invariant
            i <= v@.len(),
            out@ == v@.take(i as int),
        decreases v@.len() - i,
    {
        out.push(v[i].clone());
        proof {
            assert(v@.take(i as int + 1) =~= v@.take(i as int).push(v@[i as int]));
        }
        i = i + 1;
    }
    proof {
        assert(v@.take(v@.len() as int) =~= v@);
    }
    out
}

/// Evaluates a library's rule list against the platform with an explicit
/// verdict accumulator: allow by default, every matching rule overrides in
/// order, so the last matching rule wins.
pub fn evaluate_rules(rules: &Vec<Rule>, p: &Platform) -> (allowed: bool)
    ensures
        allowed == rules_allow(rules@, *p),
{
    let mut verdict: bool = true;
    let mut i: usize = 0;
    proof {
        assert(rules@.take(0) =~= Seq::<Rule>::empty());
    }
    while i < rules.len()
        invariant
            i <= rules@.len(),
            verdict == rules_allow(rules@.take(i as int), *p),
        decreases rules@.len() - i,
    {
        let r = rules[i];
        let matches_here: bool = match r.os {
            OsSelector::AnyOs => true,
            OsSelector::OsIs(o) => o == p.os,
        };
        if matches_here {
            verdict = match r.action {
                RuleAction::Allow => true,
                RuleAction::Disallow => false,
            };
        }
        proof {
            let t = rules@.take(i as int + 1);
            assert(t.drop_last() =~= rules@.take(i as int));
            assert(t.last() == rules@[i as int]);
            assert(matches_here == rule_matches(rules@[i as int], *p));
        }
        i = i + 1;
    }
    proof {
        assert(rules@.take(rules@.len() as int) =~= rules@);
    }
    verdict
}

/// Finds the index of the first natives directive for this OS family.
fn find_native_key(natives: &Vec<NativeEntry>, os: OsName) -> (r: Option<usize>)
    ensures
        match r {
            Option::Some(k) => k < natives@.len() && native_key(natives@, os) == Option::Some(
                natives@[k as int].classifier@,
            ),
            Option::None => native_key(natives@, os) is None,
        },
{
    let mut i: usize = 0;
    proof {
        assert(natives@.skip(0) =~= natives@);
    }
    while i < natives.len()
        invariant
            i <= natives@.len(),
            native_key(natives@, os) == native_key(natives@.skip(i as int), os),
        decreases natives@.len() - i,
    {
        proof {
            assert(natives@.skip(i as int)[0] == natives@[i as int]);
        }
        if natives[i].os == os {
            return Option::Some(i);
        }
        proof {
            assert(natives@.skip(i as int).drop_first() =~= natives@.skip(i + 1));
        }
        i = i + 1;
    }
    proof {
        assert(natives@.skip(i as int).len() == 0);
    }
    Option::None
}

/// Finds the first classifier artifact under the given key.
fn find_classifier(cls: &Vec<ClassifierEntry>, key: &String) -> (r: Option<Artifact>)
    ensures
        match r {
            Option::Some(a) => classifier_for(cls@, key@) == Option::Some(a),
            Option::None => classifier_for(cls@, key@) is None,
        },
{
    let mut i: usize = 0;
    proof {
        assert(cls@.skip(0) =~= cls@);
    }
    while i < cls.len()
        invariant
            i <= cls@.len(),
            classifier_for(cls@, key@) == classifier_for(cls@.skip(i as int), key@),
        decreases cls@.len() - i,
    {
        proof {
            assert(cls@.skip(i as int)[0] == cls@[i as int]);
        }
        if cls[i].key == *key {
            return Option::Some(cls[i].artifact.clone());
        }
        proof {
            assert(cls@.skip(i as int).drop_first() =~= cls@.skip(i + 1));
        }
        i = i + 1;
    }
    proof {
        assert(cls@.skip(i as int).len() == 0);
    }
    Option::None
}

/// Resolves one library: nothing when the platform's rules exclude it, its
/// primary artifact plus, when the natives directive applies, the native
/// bundle tagged for extraction.
pub fn resolve_library(lib: &Library, p: &Platform) -> (r: Vec<ResolvedArtifact>)
    ensures
        views_of(r@) == lib_items(*lib, *p),
{
    let mut out: Vec<ResolvedArtifact> = Vec::new();
    let allowed = evaluate_rules(&lib.rules, p);
    if !allowed {
        proof {
            assert(views_of(out@) =~= lib_items(*lib, *p));
        }
        return out;
    }
    out.push(
        ResolvedArtifact {
            artifact: lib.downloads.artifact.clone(),
            native: false,
            exclude: Vec::new(),
        },
    );
    let native: Option<Artifact> = match find_native_key(&lib.natives, p.os) {
        Option::Some(k) => find_classifier(&lib.downloads.classifiers, &lib.natives[k].classifier),
        Option::None => Option::None,
    };
    match native {
        Option::Some(a) => {
            proof {
                assert(native_artifact(*lib, *p) == Option::Some(a));
            }
            out.push(
                ResolvedArtifact {
                    artifact: a,
                    native: true,
                    exclude: clone_string_vec(&lib.extract_exclude),
                },
            );
        },
        Option::None => {
            proof {
                assert(native_artifact(*lib, *p) is None);
            }
        },
    }
    proof {
        assert forall|i: int| 0 <= i < out@.len() implies views_of(out@)[i] == resolved_view(
            out@[i],
        ) by {}
        assert(out@[0].exclude.deep_view() =~= Seq::<Seq<char>>::empty());
        if out@.len() > 1 {
            assert(out@[1].exclude.deep_view() =~= lib.extract_exclude.deep_view());
        }
        assert(views_of(out@) =~= lib_items(*lib, *p));
    }
    out
}

proof fn lemma_views_of_add(a: Seq<ResolvedArtifact>, b: Seq<ResolvedArtifact>)
    ensures
        views_of(a + b) == views_of(a) + views_of(b),
{
    assert(views_of(a + b) =~= views_of(a) + views_of(b));
}

/// Resolves a manifest against a platform: an error when the main jar or
/// the asset index is missing — those are mandatory on every platform —
/// else the main jar, the asset index, and every allowed library's
/// artifacts, in manifest order.
#[verifier::loop_isolation(false)]
pub fn resolve(m: &VersionInfo, p: &Platform) -> (r: Result<Vec<ResolvedArtifact>, ResolveError>)
    ensures
        (r is Ok) <==> (m.downloads.client is Some && m.asset_index is Some),
        r matches Ok(v) ==> (spec_resolve(*m, *p) matches Ok(vs) && views_of(v@) == vs),
        r matches Err(e) ==> e == ResolveError::UnsupportedPlatform,
{
    let client: Artifact = match &m.downloads.client {
        Option::Some(a) => a.clone(),
        Option::None => {
            return Result::Err(ResolveError::UnsupportedPlatform);
        },
    };
    let index: AssetIndex = match &m.asset_index {
        Option::Some(a) => a.clone(),
        Option::None => {
            return Result::Err(ResolveError::UnsupportedPlatform);
        },
    };
    let mut out: Vec<ResolvedArtifact> = Vec::new();
    out.push(ResolvedArtifact { artifact: client, native: false, exclude: Vec::new() });
    out.push(
        ResolvedArtifact {
            artifact: Artifact {
                path: index.id.clone(),
                sha1: index.sha1.clone(),
                size: index.size,
                url: index.url.clone(),
            },
            native: false,
            exclude: Vec::new(),
        },
    );
    let ghost header: Seq<ResolvedView> = seq![
        artifact_resolved(m.downloads.client->0, false, Seq::empty()),
        asset_index_resolved(m.asset_index->0),
    ];
    proof {
        assert(out@[0].exclude.deep_view() =~= Seq::<Seq<char>>::empty());
        assert(out@[1].exclude.deep_view() =~= Seq::<Seq<char>>::empty());
        assert(views_of(out@) =~= header);
        assert(m.libraries@.take(0) =~= Seq::<Library>::empty());
        assert(views_of(out@) =~= header + libs_items(m.libraries@.take(0), *p));
    }
    let mut i: usize = 0;
    while i < m.libraries.len()
        invariant
            i <= m.libraries@.len(),
            views_of(out@) == header + libs_items(m.libraries@.take(i as int), *p),
        decreases m.libraries@.len() - i,
    {
        let mut items = resolve_library(&m.libraries[i], p);
        let ghost items_seq = items@;
        let ghost out_before = out@;
        out.append(&mut items);
        proof {
            let t = m.libraries@.take(i as int + 1);
            assert(t.drop_last() =~= m.libraries@.take(i as int));
            assert(t.last() == m.libraries@[i as int]);
            lemma_views_of_add(out_before, items_seq);
            assert(views_of(out@) =~= header + libs_items(t, *p));
        }
        i = i + 1;
    }
    proof {
        assert(m.libraries@.take(m.libraries@.len() as int) =~= m.libraries@);
    }
    Result::Ok(out)
}

/// Fetching and checksum verification belong to the external downloader
/// that consumes the resolver's output; the engine only decides what must
/// be present.  This entry point deliberately performs no work.
pub fn download_artifact(a: &Artifact) {
}

} // verus!

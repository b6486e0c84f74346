//! Collections of DBL bundles.

use std::path::PathBuf;

use vstd::prelude::*;

use crate::bundle::{BundleView, DblBundle};
use crate::text;

verus! {

/// The name of the file that makes a directory a DBL bundle.
pub const METADATA_FILE: &'static str = "metadata.xml";

/// One entry of a directory.
#[derive(Debug)]
pub struct DirectoryEntry {
    /// The bytes of the entry's file name, as the platform encodes it.
    pub name: Vec<u8>,
    /// The path to the entry.
    pub path: PathBuf,
    /// Whether the entry is a directory.
    pub is_directory: bool,
    /// Whether the entry contains a metadata file.
    pub has_metadata: bool,
}

/// The view of a [`DirectoryEntry`].
pub struct EntryView {
    pub name: Seq<u8>,
    pub path: PathBuf,
    pub is_directory: bool,
    pub has_metadata: bool,
}

impl View for DirectoryEntry {
    type V = EntryView;

    open spec fn view(&self) -> EntryView {
        EntryView {
            name: self.name@,
            path: self.path,
            is_directory: self.is_directory,
            has_metadata: self.has_metadata,
        }
    }
}

/// The views of directory entries.
pub open spec fn entry_views(entries: Seq<DirectoryEntry>) -> Seq<EntryView> {
    Seq::new(entries.len(), |i: int| entries[i]@)
}

impl EntryView {
    /// Whether the entry is a bundle.
    pub open spec fn is_bundle(self) -> bool {
        self.is_directory && self.has_metadata
    }
}

/// Whether one name comes before another: at the first place where they differ it has the
/// smaller byte, or it ends there.
pub open spec fn precedes(a: Seq<u8>, b: Seq<u8>) -> bool
    decreases a.len(),
{
    if b.len() == 0 {
        false
    } else if a.len() == 0 {
        true
    } else {
        a[0] < b[0] || (a[0] == b[0] && precedes(a.skip(1), b.skip(1)))
    }
}

/// Entries in order with one more entry, which comes behind those that it does not precede.
pub open spec fn placed(order: Seq<EntryView>, entry: EntryView) -> Seq<EntryView>
    decreases order.len(),
{
    if order.len() > 0 && precedes(entry.name, order.last().name) {
        placed(order.drop_last(), entry).push(order.last())
    } else {
        order.push(entry)
    }
}

/// The bundles among the entries of a directory, in path order.
pub open spec fn bundles_in_order(entries: Seq<EntryView>) -> Seq<EntryView>
    decreases entries.len(),
{
    if entries.len() == 0 {
        seq![]
    } else if entries.last().is_bundle() {
        placed(bundles_in_order(entries.drop_last()), entries.last())
    } else {
        bundles_in_order(entries.drop_last())
    }
}

/// Whether no entry precedes an earlier one.
pub open spec fn is_in_order(order: Seq<EntryView>) -> bool {
    forall|i: int, j: int|
        0 <= i < j < order.len() ==> !precedes(#[trigger] order[j].name, #[trigger] order[i].name)
}

/// The paths of directory entries.
pub open spec fn entry_paths(entries: Seq<EntryView>) -> Seq<PathBuf> {
    Seq::new(entries.len(), |i: int| entries[i].path)
}

/// What a directory is to a library.
#[derive(Debug)]
pub enum Directory {
    /// A bundle, since it contains a metadata file.
    Bundle,
    /// A directory of other entries.
    Folder(Vec<DirectoryEntry>),
}

/// The root directories of the bundles of a library at `root`.
pub open spec fn bundle_roots(root: PathBuf, directory: Directory) -> Seq<PathBuf> {
    match directory {
        Directory::Bundle => seq![root],
        Directory::Folder(entries) => entry_paths(bundles_in_order(entry_views(entries@))),
    }
}

/// Whether one name comes before another.
fn name_precedes(a: &[u8], b: &[u8]) -> (before: bool)
    ensures
        before == precedes(a@, b@),
{
    let mut i: usize = 0;
    assert(a@.skip(0) =~= a@ && b@.skip(0) =~= b@);
    while i < b.len()
        invariant
            i <= a@.len(),
            i <= b@.len(),
            precedes(a@, b@) == precedes(a@.skip(i as int), b@.skip(i as int)),
        decreases b@.len() - i,
    {
        if i == a.len() {
            return true;
        }
        assert(a@.skip(i as int)[0] == a@[i as int] && b@.skip(i as int)[0] == b@[i as int]);
        if a[i] != b[i] {
            return a[i] < b[i];
        }
        assert(a@.skip(i as int).skip(1) =~= a@.skip(i + 1));
        assert(b@.skip(i as int).skip(1) =~= b@.skip(i + 1));
        i += 1;
    }
    false
}

/// What follows the place of an entry stays behind it.
proof fn lemma_placed(order: Seq<EntryView>, entry: EntryView, at: int)
    requires
        0 <= at <= order.len(),
        forall|i: int| at <= i < order.len() ==> precedes(entry.name, #[trigger] order[i].name),
        at == 0 || !precedes(entry.name, order[at - 1].name),
    ensures
        placed(order, entry) == order.insert(at, entry),
    decreases order.len(),
{
    if at < order.len() {
        assert(precedes(entry.name, order[order.len() - 1].name));
        assert forall|i: int| at <= i < order.drop_last().len() implies precedes(
            entry.name,
            #[trigger] order.drop_last()[i].name,
        ) by {
            assert(order[i] == order.drop_last()[i]);
        }
        lemma_placed(order.drop_last(), entry, at);
        assert(order.drop_last().insert(at, entry).push(order.last()) =~= order.insert(at, entry));
    } else {
        assert(order.push(entry) =~= order.insert(at, entry));
    }
}

/// Puts one more entry among entries in order.
fn place(order: &mut Vec<DirectoryEntry>, entry: DirectoryEntry)
    ensures
        entry_views(final(order)@) == placed(entry_views(old(order)@), entry@),
{
    let ghost views = entry_views(order@);
    let mut at: usize = order.len();
    while at > 0 && name_precedes(entry.name.as_slice(), order[at - 1].name.as_slice())
        invariant
            at <= order@.len(),
            order@ == old(order)@,
            views == entry_views(order@),
            forall|i: int|
                at <= i < views.len() ==> precedes(entry@.name, #[trigger] views[i].name),
        decreases at,
    {
        assert(views[at - 1] == order@[at - 1]@);
        at -= 1;
    }
    proof {
        if at > 0 {
            assert(views[at - 1] == order@[at - 1]@);
        }
        lemma_placed(views, entry@, at as int);
    }
    order.insert(at, entry);
    assert(entry_views(order@) =~= views.insert(at as int, entry@));
}

/// The paths of the bundles among the entries of a directory, in path order.
fn ordered_paths(entries: Vec<DirectoryEntry>) -> (paths: Vec<PathBuf>)
    ensures
        paths@ == entry_paths(bundles_in_order(entry_views(entries@))),
{
    let ghost views = entry_views(entries@);
    let mut order: Vec<DirectoryEntry> = Vec::new();
    assert(entry_views(order@) =~= bundles_in_order(views.take(0)));
    for entry in it: entries
        invariant
            it.seq() == entries@,
            views == entry_views(entries@),
            entry_views(order@) == bundles_in_order(views.take(it.index() as int)),
    {
        proof {
            let i = it.index() as int;
            assert(views.take(i + 1).drop_last() =~= views.take(i));
            assert(views.take(i + 1).last() == entry@);
        }
        if entry.is_directory && entry.has_metadata {
            place(&mut order, entry);
        }
    }
    assert(views.take(views.len() as int) =~= views);
    let mut paths: Vec<PathBuf> = Vec::new();
    let ghost ordered = order@;
    for entry in it: order
        invariant
            it.seq() == ordered,
            paths@ == entry_paths(entry_views(ordered)).take(it.index() as int),
    {
        proof {
            let i = it.index() as int;
            assert(entry_paths(entry_views(ordered)).take(i + 1) =~= entry_paths(
                entry_views(ordered),
            ).take(i).push(entry.path));
        }
        paths.push(entry.path);
    }
    paths
}

/// The views of bundles.
pub open spec fn bundle_views(bundles: Seq<DblBundle>) -> Seq<BundleView> {
    Seq::new(bundles.len(), |i: int| bundles[i]@)
}

/// The root directories of bundles.
pub open spec fn roots_of(bundles: Seq<BundleView>) -> Seq<PathBuf> {
    Seq::new(bundles.len(), |i: int| bundles[i].root)
}

/// A library whose bundles are still to be opened.
#[derive(Debug)]
pub struct Discovery {
    roots: Vec<PathBuf>,
    bundles: Vec<DblBundle>,
}

/// The view of a [`Discovery`].
pub struct DiscoveryView {
    /// The root directories of all bundles.
    pub roots: Seq<PathBuf>,
    /// The bundles that are open.
    pub bundles: Seq<BundleView>,
}

impl View for Discovery {
    type V = DiscoveryView;

    closed spec fn view(&self) -> DiscoveryView {
        DiscoveryView { roots: self.roots@, bundles: bundle_views(self.bundles@) }
    }
}

impl DiscoveryView {
    /// The root directory of the bundle that is to be opened next.
    pub open spec fn next_root(self) -> Option<PathBuf> {
        if self.bundles.len() < self.roots.len() {
            Some(self.roots[self.bundles.len() as int])
        } else {
            None
        }
    }
}

impl Discovery {
    #[verifier::type_invariant]
    spec fn valid(self) -> bool {
        &&& self.bundles@.len() <= self.roots@.len()
        &&& roots_of(bundle_views(self.bundles@)) == self.roots@.take(self.bundles@.len() as int)
    }

    /// The root directory of the bundle that is to be opened next.
    pub fn next_root(&self) -> (root: Option<&PathBuf>)
        ensures
            root is Some <==> self@.next_root() is Some,
            root is Some ==> *root->0 == self@.next_root()->0,
    {
        if self.bundles.len() < self.roots.len() {
            Some(&self.roots[self.bundles.len()])
        } else {
            None
        }
    }

    /// Adds the next bundle.
    pub fn add(self, bundle: DblBundle) -> (discovery: Self)
        requires
            self@.next_root() == Some(bundle@.root),
        ensures
            discovery@ == (DiscoveryView { bundles: self@.bundles.push(bundle@), ..self@ }),
    {
        proof {
            use_type_invariant(&self);
        }
        let ghost before = self.bundles@;
        let mut bundles = self.bundles;
        bundles.push(bundle);
        proof {
            let n = before.len() as int;
            assert(bundle_views(bundles@) =~= bundle_views(before).push(bundle@));
            assert(roots_of(bundle_views(bundles@)) =~= roots_of(bundle_views(before)).push(
                bundle@.root,
            ));
            assert(self.roots@.take(n + 1) =~= self.roots@.take(n).push(self.roots@[n]));
        }
        Discovery { roots: self.roots, bundles }
    }

    /// Makes the library, once all its bundles are added.
    pub fn finish(self) -> (library: ScriptureLibrary)
        requires
            self@.next_root() is None,
        ensures
            library@ == self@.bundles,
            roots_of(library@) == self@.roots,
    {
        proof {
            use_type_invariant(&self);
            assert(self.roots@.take(self.roots@.len() as int) =~= self.roots@);
        }
        ScriptureLibrary { bundles: self.bundles }
    }
}

/// A collection of unpacked DBL bundles found below one directory.
#[derive(Debug)]
pub struct ScriptureLibrary {
    bundles: Vec<DblBundle>,
}

impl View for ScriptureLibrary {
    type V = Seq<BundleView>;

    closed spec fn view(&self) -> Seq<BundleView> {
        bundle_views(self.bundles@)
    }
}

/// The first bundle with that preferred or non-localized abbreviation, without regard to
/// ASCII case.
pub open spec fn first_abbreviated(bundles: Seq<BundleView>, abbreviation: Seq<char>) -> Option<
    BundleView,
>
    decreases bundles.len(),
{
    if bundles.len() == 0 {
        None
    } else if bundles[0].answers_to(abbreviation) {
        Some(bundles[0])
    } else {
        first_abbreviated(bundles.skip(1), abbreviation)
    }
}

/// The view of a bundle that was looked up.
pub open spec fn found_bundle(bundle: Option<&DblBundle>) -> Option<BundleView> {
    match bundle {
        Some(bundle) => Some(bundle@),
        None => None,
    }
}

impl ScriptureLibrary {
    /// Finds DBL bundles in `root`.
    ///
    /// If `root` is itself a bundle, it is the only entry. Otherwise, each immediate child
    /// containing a `metadata.xml` file is to be opened.
    pub fn discover(root: PathBuf, directory: Directory) -> (discovery: Discovery)
        ensures
            discovery@.roots == bundle_roots(root, directory),
            discovery@.bundles.len() == 0,
    {
        let roots = match directory {
            Directory::Bundle => {
                let mut roots: Vec<PathBuf> = Vec::new();
                roots.push(root);
                assert(roots@ =~= seq![root]);
                roots
            },
            Directory::Folder(entries) => ordered_paths(entries),
        };
        let bundles: Vec<DblBundle> = Vec::new();
        assert(roots_of(bundle_views(bundles@)) =~= roots@.take(0));
        Discovery { roots, bundles }
    }

    /// Returns the discovered bundles in path order.
    pub fn bundles(&self) -> (bundles: &[DblBundle])
        ensures
            bundle_views(bundles@) == self@,
    {
        self.bundles.as_slice()
    }

    /// Finds a bundle by its preferred or non-localized abbreviation.
    ///
    /// Matching is ASCII case-insensitive. If multiple bundles use the same
    /// abbreviation, the first bundle in [`Self::bundles`] is returned.
    pub fn get(&self, abbreviation: &str) -> (bundle: Option<&DblBundle>)
        ensures
            found_bundle(bundle) == first_abbreviated(self@, abbreviation@),
    {
        let ghost views = self@;
        let mut i: usize = 0;
        assert(views.skip(0) =~= views);
        while i < self.bundles.len()
            invariant
                i <= self.bundles@.len(),
                views == bundle_views(self.bundles@),
                first_abbreviated(views, abbreviation@) == first_abbreviated(
                    views.skip(i as int),
                    abbreviation@,
                ),
            decreases self.bundles@.len() - i,
        {
            assert(views.skip(i as int)[0] == self.bundles@[i as int]@);
            assert(views.skip(i as int).skip(1) =~= views.skip(i + 1));
            if self.bundles[i].is_abbreviated(abbreviation) {
                return Some(&self.bundles[i]);
            }
            i += 1;
        }
        None
    }
}

// What holds of all libraries.

proof fn lemma_precedes_is_an_order(a: Seq<u8>, b: Seq<u8>, c: Seq<u8>)
    ensures
        !precedes(a, a),
        precedes(a, b) ==> !precedes(b, a),
        !precedes(b, a) && !precedes(c, b) ==> !precedes(c, a),
    decreases a.len() + b.len() + c.len(),
{
    if a.len() > 0 && b.len() > 0 {
        if c.len() > 0 {
            lemma_precedes_is_an_order(a.skip(1), b.skip(1), c.skip(1));
        } else {
            lemma_precedes_is_an_order(a.skip(1), b.skip(1), c);
        }
    } else if a.len() > 0 {
        lemma_precedes_is_an_order(a.skip(1), b, c);
    }
}

proof fn lemma_placed_in_order(order: Seq<EntryView>, entry: EntryView)
    requires
        is_in_order(order),
    ensures
        is_in_order(placed(order, entry)),
        placed(order, entry).to_multiset() == order.to_multiset().insert(entry),
        order.len() > 0 ==> placed(order, entry).last() == order.last() || placed(
            order,
            entry,
        ).last() == entry,
    decreases order.len(),
{
    broadcast use vstd::seq_lib::group_to_multiset_ensures;

    if order.len() > 0 && precedes(entry.name, order.last().name) {
        let last = order.last();
        let before = order.drop_last();
        assert forall|i: int, j: int| 0 <= i < j < before.len() implies !precedes(
            #[trigger] before[j].name,
            #[trigger] before[i].name,
        ) by {
            assert(!precedes(order[j].name, order[i].name));
        }
        lemma_placed_in_order(before, entry);
        let shorter = placed(before, entry);
        assert(before.push(last) =~= order);
        assert(order.to_multiset() == before.to_multiset().insert(last));
        assert(shorter.push(last).to_multiset() == shorter.to_multiset().insert(last));
        assert(before.to_multiset().insert(entry).insert(last) =~= before.to_multiset().insert(
            last,
        ).insert(entry));
        assert forall|i: int, j: int| 0 <= i < j < shorter.push(last).len() implies !precedes(
            #[trigger] shorter.push(last)[j].name,
            #[trigger] shorter.push(last)[i].name,
        ) by {
            if j < shorter.len() {
                assert(!precedes(shorter[j].name, shorter[i].name));
            } else {
                assert(shorter.to_multiset().contains(shorter[i])) by {
                    assert(shorter.contains(shorter[i]));
                }
                if shorter[i] == entry {
                    lemma_precedes_is_an_order(entry.name, last.name, last.name);
                } else {
                    assert(before.to_multiset().contains(shorter[i]));
                    let k = choose|k: int| 0 <= k < before.len() && before[k] == shorter[i];
                    assert(!precedes(order[order.len() - 1].name, order[k].name));
                }
            }
        }
    } else {
        let longer = order.push(entry);
        assert forall|i: int, j: int| 0 <= i < j < longer.len() implies !precedes(
            #[trigger] longer[j].name,
            #[trigger] longer[i].name,
        ) by {
            if j < order.len() {
                assert(!precedes(order[j].name, order[i].name));
            } else {
                let n = order.len() - 1;
                if i < n {
                    assert(!precedes(order[n].name, order[i].name));
                }
                lemma_precedes_is_an_order(order[i].name, order[n].name, entry.name);
            }
        }
    }
}

/// The bundles of a folder are found in path order: none precedes an earlier one.
pub proof fn law_bundles_are_in_path_order(entries: Seq<EntryView>)
    ensures
        is_in_order(bundles_in_order(entries)),
    decreases entries.len(),
{
    if entries.len() > 0 {
        law_bundles_are_in_path_order(entries.drop_last());
        if entries.last().is_bundle() {
            lemma_placed_in_order(bundles_in_order(entries.drop_last()), entries.last());
        }
    }
}

/// Each entry of a folder that is a bundle is found, as often as it is listed, and no other.
pub proof fn law_all_bundles_are_found(entries: Seq<EntryView>)
    ensures
        bundles_in_order(entries).to_multiset() == entries.to_multiset().filter(
            |entry: EntryView| entry.is_bundle(),
        ),
    decreases entries.len(),
{
    broadcast use vstd::seq_lib::group_to_multiset_ensures;

    let kept = |entry: EntryView| entry.is_bundle();
    if entries.len() == 0 {
        assert(bundles_in_order(entries).to_multiset() =~= entries.to_multiset().filter(kept));
    } else {
        let before = entries.drop_last();
        let last = entries.last();
        law_all_bundles_are_found(before);
        law_bundles_are_in_path_order(before);
        assert(before.push(last) =~= entries);
        if last.is_bundle() {
            lemma_placed_in_order(bundles_in_order(before), last);
        }
        assert(bundles_in_order(entries).to_multiset() =~= entries.to_multiset().filter(kept));
    }
}

/// Whether entries of the same name are the same entry.
spec fn are_told_apart(entries: Seq<EntryView>) -> bool {
    forall|i: int, j: int|
        0 <= i < entries.len() && 0 <= j < entries.len() && (#[trigger] entries[i]).name == (
        #[trigger] entries[j]).name ==> entries[i] == entries[j]
}

proof fn lemma_neither_precedes(a: Seq<u8>, b: Seq<u8>)
    requires
        !precedes(a, b),
        !precedes(b, a),
    ensures
        a == b,
    decreases a.len(),
{
    if a.len() > 0 && b.len() > 0 {
        lemma_neither_precedes(a.skip(1), b.skip(1));
        assert(a =~= seq![a[0]] + a.skip(1));
        assert(b =~= seq![b[0]] + b.skip(1));
    } else {
        assert(a =~= b);
    }
}

proof fn lemma_order_is_unique(a: Seq<EntryView>, b: Seq<EntryView>)
    requires
        is_in_order(a),
        is_in_order(b),
        a.to_multiset() == b.to_multiset(),
        are_told_apart(a),
    ensures
        a == b,
    decreases a.len(),
{
    broadcast use vstd::seq_lib::group_to_multiset_ensures;

    vstd::seq_lib::to_multiset_len(a);
    vstd::seq_lib::to_multiset_len(b);
    if a.len() == 0 {
        assert(a =~= b);
    } else {
        let n = a.len() - 1;
        let x = a.last();
        let y = b.last();
        assert(b.contains(x)) by {
            assert(a.contains(a[n]));
            assert(a.to_multiset().count(x) > 0);
        }
        assert(a.contains(y)) by {
            assert(b.contains(b[n]));
            assert(b.to_multiset().count(y) > 0);
        }
        let k = choose|k: int| 0 <= k < b.len() && b[k] == x;
        let m = choose|m: int| 0 <= m < a.len() && a[m] == y;
        lemma_precedes_is_an_order(x.name, x.name, x.name);
        assert(!precedes(y.name, x.name)) by {
            if k < n {
                assert(!precedes(b[n].name, b[k].name));
            }
        }
        assert(!precedes(x.name, y.name)) by {
            if m < n {
                assert(!precedes(a[n].name, a[m].name));
            }
        }
        lemma_neither_precedes(x.name, y.name);
        assert(a[m].name == a[n].name);
        let before_a = a.drop_last();
        let before_b = b.drop_last();
        assert(before_a =~= a.remove(n) && before_b =~= b.remove(n));
        assert forall|i: int, j: int| 0 <= i < j < before_a.len() implies !precedes(
            #[trigger] before_a[j].name,
            #[trigger] before_a[i].name,
        ) by {
            assert(!precedes(a[j].name, a[i].name));
        }
        assert forall|i: int, j: int| 0 <= i < j < before_b.len() implies !precedes(
            #[trigger] before_b[j].name,
            #[trigger] before_b[i].name,
        ) by {
            assert(!precedes(b[j].name, b[i].name));
        }
        assert forall|i: int, j: int|
            0 <= i < before_a.len() && 0 <= j < before_a.len() && (#[trigger] before_a[i]).name
                == (#[trigger] before_a[j]).name implies before_a[i] == before_a[j] by {
            assert(a[i].name == a[j].name);
        }
        lemma_order_is_unique(before_a, before_b);
        assert(a =~= before_a.push(x));
        assert(b =~= before_b.push(y));
    }
}

/// The order in which the entries of a directory are listed makes no difference, since
/// their names differ.
pub proof fn law_listing_order_makes_no_difference(a: Seq<EntryView>, b: Seq<EntryView>)
    requires
        a.to_multiset() == b.to_multiset(),
        forall|i: int, j: int|
            0 <= i < a.len() && 0 <= j < a.len() && i != j ==> (#[trigger] a[i]).name != (
            #[trigger] a[j]).name,
    ensures
        bundles_in_order(a) == bundles_in_order(b),
{
    broadcast use vstd::seq_lib::group_to_multiset_ensures;

    law_all_bundles_are_found(a);
    law_all_bundles_are_found(b);
    law_bundles_are_in_path_order(a);
    law_bundles_are_in_path_order(b);
    let order = bundles_in_order(a);
    assert forall|i: int, j: int|
        0 <= i < order.len() && 0 <= j < order.len() && (#[trigger] order[i]).name == (
        #[trigger] order[j]).name implies order[i] == order[j] by {
        assert(order.contains(order[i]) && order.contains(order[j]));
        assert(order.to_multiset().count(order[i]) > 0 && order.to_multiset().count(order[j]) > 0);
        assert(a.to_multiset().count(order[i]) > 0 && a.to_multiset().count(order[j]) > 0);
        assert(a.contains(order[i]) && a.contains(order[j]));
        let k = choose|k: int| 0 <= k < a.len() && a[k] == order[i];
        let m = choose|m: int| 0 <= m < a.len() && a[m] == order[j];
        assert(a[k].name == a[m].name);
    }
    lemma_order_is_unique(order, bundles_in_order(b));
}

/// Bundles are found without regard to the ASCII case of the abbreviation.
pub proof fn law_lookup_ignores_case(bundles: Seq<BundleView>, a: Seq<char>, b: Seq<char>)
    requires
        text::equal_ignoring_case(a, b),
    ensures
        first_abbreviated(bundles, a) == first_abbreviated(bundles, b),
    decreases bundles.len(),
{
    if bundles.len() > 0 {
        law_lookup_ignores_case(bundles.skip(1), a, b);
    }
}

/// The bundle that an abbreviation finds is the first that answers to it, and none is
/// found only where no bundle does.
pub proof fn law_first_bundle_is_found(bundles: Seq<BundleView>, abbreviation: Seq<char>)
    ensures
        first_abbreviated(bundles, abbreviation) is None <==> forall|i: int|
            0 <= i < bundles.len() ==> !(#[trigger] bundles[i]).answers_to(abbreviation),
        first_abbreviated(bundles, abbreviation) is Some ==> exists|i: int|
            0 <= i < bundles.len() && (#[trigger] bundles[i]) == first_abbreviated(
                bundles,
                abbreviation,
            )->0 && bundles[i].answers_to(abbreviation) && forall|j: int|
                0 <= j < i ==> !(#[trigger] bundles[j]).answers_to(abbreviation),
    decreases bundles.len(),
{
    if bundles.len() > 0 {
        let rest = bundles.skip(1);
        law_first_bundle_is_found(rest, abbreviation);
        if bundles[0].answers_to(abbreviation) {
            assert(bundles[0] == first_abbreviated(bundles, abbreviation)->0);
        } else if first_abbreviated(rest, abbreviation) is Some {
            let i = choose|i: int|
                0 <= i < rest.len() && (#[trigger] rest[i]) == first_abbreviated(
                    rest,
                    abbreviation,
                )->0 && rest[i].answers_to(abbreviation) && forall|j: int|
                    0 <= j < i ==> !(#[trigger] rest[j]).answers_to(abbreviation);
            assert forall|j: int| 0 <= j < i + 1 implies !(#[trigger] bundles[j]).answers_to(
                abbreviation,
            ) by {
                if j > 0 {
                    assert(!rest[j - 1].answers_to(abbreviation));
                }
            }
            assert(bundles[i + 1] == first_abbreviated(bundles, abbreviation)->0);
        } else {
            assert forall|j: int| 0 <= j < bundles.len() implies !(
            #[trigger] bundles[j]).answers_to(abbreviation) by {
                if j > 0 {
                    assert(!rest[j - 1].answers_to(abbreviation));
                }
            }
        }
    }
}

/// Each abbreviation of a bundle finds that bundle, or an earlier one that answers to it
/// too.
pub proof fn law_bundle_is_found_by_its_abbreviations(bundles: Seq<BundleView>, i: int)
    requires
        0 <= i < bundles.len(),
    ensures
        exists|j: int|
            0 <= j <= i && Some(#[trigger] bundles[j]) == first_abbreviated(
                bundles,
                bundles[i].abbreviation,
            ),
        exists|j: int|
            0 <= j <= i && Some(#[trigger] bundles[j]) == first_abbreviated(
                bundles,
                bundles[i].metadata_abbreviation,
            ),
{
    assert(bundles[i].answers_to(bundles[i].abbreviation));
    assert(bundles[i].answers_to(bundles[i].metadata_abbreviation));
    law_first_bundle_is_found(bundles, bundles[i].abbreviation);
    law_first_bundle_is_found(bundles, bundles[i].metadata_abbreviation);
}

/// One name precedes another exactly where it is a proper beginning of it, or where they
/// agree up to some place at which its byte is the smaller number.
pub proof fn law_precedes(a: Seq<u8>, b: Seq<u8>)
    ensures
        precedes(a, b) <==> (a.len() < b.len() && forall|k: int|
            0 <= k < a.len() ==> #[trigger] a[k] == b[k]) || exists|i: int|
            0 <= i < a.len() && i < b.len() && (#[trigger] a[i] as int) < (b[i] as int) && forall|
                k: int,
            |
                0 <= k < i ==> #[trigger] a[k] == b[k],
    decreases a.len(),
{
    let beginning = a.len() < b.len() && forall|k: int| 0 <= k < a.len() ==> #[trigger] a[k] == b[k];
    let smaller = exists|i: int|
        0 <= i < a.len() && i < b.len() && (#[trigger] a[i] as int) < (b[i] as int) && forall|k: int|
            0 <= k < i ==> #[trigger] a[k] == b[k];
    if a.len() > 0 && b.len() > 0 {
        let x = a.skip(1);
        let y = b.skip(1);
        law_precedes(x, y);
        if precedes(a, b) {
            if a[0] == b[0] {
                if x.len() < y.len() && forall|k: int| 0 <= k < x.len() ==> #[trigger] x[k]
                    == y[k] {
                    assert forall|k: int| 0 <= k < a.len() implies #[trigger] a[k] == b[k] by {
                        if k > 0 {
                            assert(x[k - 1] == y[k - 1]);
                        }
                    }
                    assert(beginning);
                } else {
                    let i = choose|i: int|
                        0 <= i < x.len() && i < y.len() && (#[trigger] x[i] as int) < (y[i] as int)
                            && forall|k: int| 0 <= k < i ==> #[trigger] x[k] == y[k];
                    assert forall|k: int| 0 <= k < i + 1 implies #[trigger] a[k] == b[k] by {
                        if k > 0 {
                            assert(x[k - 1] == y[k - 1]);
                        }
                    }
                    assert((a[i + 1] as int) < (b[i + 1] as int));
                    assert(smaller);
                }
            } else {
                assert((a[0] as int) < (b[0] as int));
                assert(smaller);
            }
        }
        if beginning {
            assert(a[0] == b[0]);
            assert forall|k: int| 0 <= k < x.len() implies #[trigger] x[k] == y[k] by {
                assert(a[k + 1] == b[k + 1]);
            }
            assert(precedes(x, y));
        }
        if smaller {
            let i = choose|i: int|
                0 <= i < a.len() && i < b.len() && (#[trigger] a[i] as int) < (b[i] as int)
                    && forall|k: int| 0 <= k < i ==> #[trigger] a[k] == b[k];
            if i > 0 {
                assert(a[0] == b[0]);
                assert forall|k: int| 0 <= k < i - 1 implies #[trigger] x[k] == y[k] by {
                    assert(a[k + 1] == b[k + 1]);
                }
                assert((x[i - 1] as int) < (y[i - 1] as int));
                assert(precedes(x, y));
            }
        }
    }
}

/// An entry is found exactly where it is a directory with a metadata file, as often as it is
/// listed.
pub proof fn law_found_entries(entries: Seq<EntryView>, entry: EntryView)
    ensures
        bundles_in_order(entries).to_multiset().count(entry) == (if entry.is_directory
            && entry.has_metadata {
            entries.to_multiset().count(entry)
        } else {
            0
        }),
{
    law_all_bundles_are_found(entries);
}

/// The roots of a library: a bundle is its own only root, and those of a folder are the paths
/// of the found entries, one for each and in their order.
pub proof fn law_bundle_roots(root: PathBuf, entries: Vec<DirectoryEntry>)
    ensures
        bundle_roots(root, Directory::Bundle) == seq![root],
        bundle_roots(root, Directory::Folder(entries)).len() == bundles_in_order(
            entry_views(entries@),
        ).len(),
        forall|i: int|
            0 <= i < bundles_in_order(entry_views(entries@)).len() ==> bundle_roots(
                root,
                Directory::Folder(entries),
            )[i] == (#[trigger] bundles_in_order(entry_views(entries@))[i]).path,
        entry_views(entries@).len() == entries@.len(),
        forall|i: int|
            0 <= i < entries@.len() ==> {
                let view = #[trigger] entry_views(entries@)[i];
                &&& view.name == entries@[i].name@
                &&& view.path == entries@[i].path
                &&& view.is_directory == entries@[i].is_directory
                &&& view.has_metadata == entries@[i].has_metadata
            },
{
}

/// A bundle that is found has an abbreviation, the preferred or the non-localized one, that
/// equals what was asked for but for ASCII case, and none before it has one. Where none is
/// found, no bundle has one.
pub proof fn law_found_bundle_has_the_abbreviation(
    bundles: Seq<BundleView>,
    abbreviation: Seq<char>,
)
    ensures
        first_abbreviated(bundles, abbreviation) matches Some(bundle) ==> exists|i: int|
            0 <= i < bundles.len() && (#[trigger] bundles[i]) == bundle && (
            text::equal_ignoring_case(bundles[i].abbreviation, abbreviation)
                || text::equal_ignoring_case(bundles[i].metadata_abbreviation, abbreviation))
                && forall|j: int|
                0 <= j < i ==> !text::equal_ignoring_case(
                    (#[trigger] bundles[j]).abbreviation,
                    abbreviation,
                ) && !text::equal_ignoring_case(bundles[j].metadata_abbreviation, abbreviation),
        first_abbreviated(bundles, abbreviation) is None ==> forall|i: int|
            0 <= i < bundles.len() ==> !text::equal_ignoring_case(
                (#[trigger] bundles[i]).abbreviation,
                abbreviation,
            ) && !text::equal_ignoring_case(bundles[i].metadata_abbreviation, abbreviation),
{
    law_first_bundle_is_found(bundles, abbreviation);
    if first_abbreviated(bundles, abbreviation) is None {
        assert forall|i: int| 0 <= i < bundles.len() implies !text::equal_ignoring_case(
            (#[trigger] bundles[i]).abbreviation,
            abbreviation,
        ) && !text::equal_ignoring_case(bundles[i].metadata_abbreviation, abbreviation) by {
            assert(!bundles[i].answers_to(abbreviation));
        }
    } else {
        let i = choose|i: int|
            0 <= i < bundles.len() && (#[trigger] bundles[i]) == first_abbreviated(
                bundles,
                abbreviation,
            )->0 && bundles[i].answers_to(abbreviation) && forall|j: int|
                0 <= j < i ==> !(#[trigger] bundles[j]).answers_to(abbreviation);
        assert forall|j: int| 0 <= j < i implies !text::equal_ignoring_case(
            (#[trigger] bundles[j]).abbreviation,
            abbreviation,
        ) && !text::equal_ignoring_case(bundles[j].metadata_abbreviation, abbreviation) by {
            assert(!bundles[j].answers_to(abbreviation));
        }
        assert(bundles[i] == first_abbreviated(bundles, abbreviation)->0);
    }
}

/// The next root is the first whose bundle is not open yet.
pub proof fn law_next_root(discovery: DiscoveryView)
    ensures
        discovery.next_root() is Some <==> discovery.bundles.len() < discovery.roots.len(),
        discovery.bundles.len() < discovery.roots.len() ==> discovery.next_root() == Some(
            discovery.roots[discovery.bundles.len() as int],
        ),
{
}

/// The roots of bundles are those of each, in their order.
pub proof fn law_roots_of(bundles: Seq<BundleView>)
    ensures
        roots_of(bundles).len() == bundles.len(),
        forall|i: int| 0 <= i < bundles.len() ==> roots_of(bundles)[i] == (#[trigger] bundles[i]).root,
{
}

/// The views of bundles, and of one that was looked up, are their own.
pub proof fn law_views(bundles: Seq<DblBundle>, bundle: DblBundle)
    ensures
        bundle_views(bundles).len() == bundles.len(),
        forall|i: int|
            0 <= i < bundles.len() ==> bundle_views(bundles)[i] == (#[trigger] bundles[i])@,
        found_bundle(Some(&bundle)) == Some(bundle@),
        found_bundle(None) is None,
{
}

} // verus!

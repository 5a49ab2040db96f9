//! The layout of the on-disk store and the checks its reads and writes
//! make. The store keeps committed contracts under `<root>/projects` and
//! working copies under `<root>/drafts`, one `<name>.yaml` file each.
//! Reading and writing the files is left to the caller; this module says
//! where each file lives and what a file's contract must satisfy.

use vstd::prelude::*;
use vstd::multiset::Multiset;
use crate::model::{ContractError, ErrorView, ProjectContract, contract_error, error_message, is_valid, reports};
use crate::text::{chars_of, join2, join3, owned};

verus! {

/// `base` joined with the relative or absolute path `part`, as a Unix
/// path buffer joins them: an absolute `part` replaces `base`; otherwise
/// a `/` goes between them unless `base` is empty or already ends in one.
pub open spec fn join_path(base: Seq<char>, part: Seq<char>) -> Seq<char> {
    if part.len() > 0 && part[0] == '/' {
        part
    } else if base.len() == 0 || base.last() == '/' {
        base + part
    } else {
        base + seq!['/'] + part
    }
}

/// `<name>.yaml`
pub open spec fn file_name(name: Seq<char>) -> Seq<char> {
    name + ".yaml"@
}

/// A store rooted at a directory.
#[derive(Debug, Clone)]
pub struct Store {
    root: String,
}

/// Why a file of the store was refused.
#[derive(Debug, Clone, PartialEq, Eq)]
pub enum StoreError {
    /// The contract read from `path` breaks a rule.
    Invalid { path: String, error: ContractError },
}

pub enum StoreErrorView {
    Invalid { path: Seq<char>, error: ErrorView },
}

impl View for StoreError {
    type V = StoreErrorView;

    open spec fn view(&self) -> StoreErrorView {
        match self {
            StoreError::Invalid { path, error } => StoreErrorView::Invalid {
                path: path@,
                error: error@,
            },
        }
    }
}

/// The message of a store error: what was being done, then why it failed.
pub open spec fn store_error_message(e: StoreErrorView) -> Seq<char> {
    match e {
        StoreErrorView::Invalid { path, error } => "validate "@ + path + ": "@ + error_message(
            error,
        ),
    }
}

impl StoreError {
    /// The human-readable message for this error.
    pub fn message(&self) -> (r: String)
        ensures
            r@ == store_error_message(self@),
    {
        match self {
            StoreError::Invalid { path, error } => {
                let m = error.message();
                join3("validate ", path.as_str(), ": ").concat(m.as_str())
            },
        }
    }
}

/// What a read of the file at `path` gives once its contract (if the file
/// exists) has been checked: nothing for a missing file, the contract
/// when it is valid, and the first broken rule otherwise.
pub open spec fn checked_read(
    path: Seq<char>,
    found: Option<ProjectContract>,
    r: Result<Option<ProjectContract>, StoreError>,
) -> bool {
    match found {
        None => r == Ok::<Option<ProjectContract>, StoreError>(None),
        Some(c) => match contract_error(c@) {
            None => r == Ok::<Option<ProjectContract>, StoreError>(Some(c)),
            Some(e) => r matches Err(x) && x@ == (StoreErrorView::Invalid { path, error: e }),
        },
    }
}

fn join_path_string(base: &str, part: &str) -> (r: String)
    ensures
        r@ == join_path(base@, part@),
{
    let b = chars_of(base);
    let p = chars_of(part);
    proof {
        reveal_strlit("/");
    }
    if p.len() > 0 && p[0] == '/' {
        owned(part)
    } else if b.len() == 0 || b[b.len() - 1] == '/' {
        join2(base, part)
    } else {
        join3(base, "/", part)
    }
}

impl Store {
    /// The root directory of the store.
    pub closed spec fn root(&self) -> Seq<char> {
        self.root@
    }

    /// A store rooted at `root`.
    pub fn new(root: String) -> (r: Store)
        ensures
            r.root() == root@,
    {
        Store { root }
    }

    /// `<root>/projects`: the committed contracts.
    pub fn projects_dir(&self) -> (r: String)
        ensures
            r@ == join_path(self.root(), "projects"@),
    {
        join_path_string(self.root.as_str(), "projects")
    }

    /// `<root>/drafts`: the working copies.
    pub fn drafts_dir(&self) -> (r: String)
        ensures
            r@ == join_path(self.root(), "drafts"@),
    {
        join_path_string(self.root.as_str(), "drafts")
    }

    /// `<root>/projects/<name>.yaml`
    pub fn project_path(&self, name: &str) -> (r: String)
        ensures
            r@ == join_path(join_path(self.root(), "projects"@), file_name(name@)),
    {
        let dir = self.projects_dir();
        let file = join2(name, ".yaml");
        join_path_string(dir.as_str(), file.as_str())
    }

    /// `<root>/drafts/<name>.yaml`
    pub fn draft_path(&self, name: &str) -> (r: String)
        ensures
            r@ == join_path(join_path(self.root(), "drafts"@), file_name(name@)),
    {
        let dir = self.drafts_dir();
        let file = join2(name, ".yaml");
        join_path_string(dir.as_str(), file.as_str())
    }

    /// Loads the committed contract of `name`, given what the file at
    /// `project_path(name)` held: `None` when there is no such file, else
    /// the contract parsed from it, which must be valid.
    pub fn load_project(&self, name: &str, found: Option<ProjectContract>) -> (r: Result<
        Option<ProjectContract>,
        StoreError,
    >)
        ensures
            checked_read(
                join_path(join_path(self.root(), "projects"@), file_name(name@)),
                found,
                r,
            ),
    {
        let path = self.project_path(name);
        check_read(path, found)
    }

    /// Reads the draft of `name`, given what the file at `draft_path(name)`
    /// held: `None` when there is no draft, else the contract parsed from
    /// it, which must be valid.
    pub fn read_draft(&self, name: &str, found: Option<ProjectContract>) -> (r: Result<
        Option<ProjectContract>,
        StoreError,
    >)
        ensures
            checked_read(
                join_path(join_path(self.root(), "drafts"@), file_name(name@)),
                found,
                r,
            ),
    {
        let path = self.draft_path(name);
        check_read(path, found)
    }

    /// Where `contract` is to be written, once it has been checked: the
    /// registry refuses an invalid contract before anything is written.
    pub fn write_project(&self, contract: &ProjectContract) -> (r: Result<String, ContractError>)
        ensures
            r is Ok <==> is_valid(contract@),
            match r {
                Ok(path) => path@ == join_path(
                    join_path(self.root(), "projects"@),
                    file_name(contract.project.name@),
                ),
                Err(e) => contract_error(contract@) == Some(e@),
            },
    {
        match contract.validate() {
            Ok(()) => Ok(self.project_path(contract.project.name.as_str())),
            Err(e) => Err(e),
        }
    }
}

/// Lexicographic order on texts by code point, which is also the byte
/// order of their UTF-8 encodings (the order in which `String`s compare).
pub open spec fn text_le(a: Seq<char>, b: Seq<char>) -> bool
    decreases a.len(),
{
    if a.len() == 0 {
        true
    } else if b.len() == 0 {
        false
    } else if a[0] != b[0] {
        a[0] < b[0]
    } else {
        text_le(a.drop_first(), b.drop_first())
    }
}

proof fn lemma_text_le_total(a: Seq<char>, b: Seq<char>)
    ensures
        text_le(a, b) || text_le(b, a),
    decreases a.len(),
{
    if a.len() > 0 && b.len() > 0 && a[0] == b[0] {
        lemma_text_le_total(a.drop_first(), b.drop_first());
    }
}

proof fn lemma_text_le_trans(a: Seq<char>, b: Seq<char>, c: Seq<char>)
    requires
        text_le(a, b),
        text_le(b, c),
    ensures
        text_le(a, c),
    decreases a.len(),
{
    if a.len() > 0 && b.len() > 0 && c.len() > 0 && a[0] == b[0] && b[0] == c[0] {
        lemma_text_le_trans(a.drop_first(), b.drop_first(), c.drop_first());
    }
}

fn text_le_exec(a: &String, b: &String) -> (r: bool)
    ensures
        r == text_le(a@, b@),
{
    let x = chars_of(a.as_str());
    let y = chars_of(b.as_str());
    let mut i: usize = 0;
    assert(x@.skip(0) =~= x@);
    assert(y@.skip(0) =~= y@);
    while i < x.len() && i < y.len() && x[i] == y[i]
        invariant
            i <= x.len(),
            i <= y.len(),
            text_le(x@, y@) == text_le(x@.skip(i as int), y@.skip(i as int)),
        decreases x.len() - i,
    {
        assert(x@.skip(i as int).drop_first() =~= x@.skip(i + 1));
        assert(y@.skip(i as int).drop_first() =~= y@.skip(i + 1));
        i = i + 1;
    }
    if i == x.len() {
        assert(x@.skip(i as int).len() == 0);
        true
    } else if i == y.len() {
        assert(y@.skip(i as int).len() == 0);
        false
    } else {
        assert(x@.skip(i as int)[0] == x@[i as int]);
        assert(y@.skip(i as int)[0] == y@[i as int]);
        x[i] < y[i]
    }
}

proof fn lemma_empty_to_multiset<A>(s: Seq<A>)
    requires
        s.len() == 0,
    ensures
        s.to_multiset() == Multiset::<A>::empty(),
{
    vstd::seq_lib::to_multiset_len(s);
    vstd::multiset::lemma_multiset_empty_len(s.to_multiset());
}

/// The contracts of `s` named `n`, in their order in `s`.
pub open spec fn with_name(s: Seq<ProjectContract>, n: Seq<char>) -> Seq<ProjectContract> {
    s.filter(|c: ProjectContract| c.project.name@ == n)
}

proof fn lemma_text_le_refl(a: Seq<char>)
    ensures
        text_le(a, a),
    decreases a.len(),
{
    if a.len() > 0 {
        lemma_text_le_refl(a.drop_first());
    }
}

/// Contracts in order of their project names.
pub open spec fn sorted_by_name(s: Seq<ProjectContract>) -> bool {
    forall|j: int, k: int|
        0 <= j < k < s.len() ==> text_le(#[trigger] s[j].project.name@, #[trigger] s[k].project.name@)
}

/// `c` inserted before the first contract whose name does not come
/// before its own (so that, fed from the back, equal names keep their
/// order).
fn insert_by_name(sorted: &mut Vec<ProjectContract>, c: ProjectContract)
    requires
        sorted_by_name(old(sorted)@),
    ensures
        sorted_by_name(final(sorted)@),
        final(sorted)@.to_multiset() == old(sorted)@.to_multiset().insert(c),
        forall|n: Seq<char>| #[trigger] with_name(final(sorted)@, n) == if c.project.name@ == n {
            seq![c] + with_name(old(sorted)@, n)
        } else {
            with_name(old(sorted)@, n)
        },
{
    let mut p: usize = 0;
    while p < sorted.len() && !text_le_exec(&c.project.name, &sorted[p].project.name)
        invariant
            p <= sorted.len(),
            sorted@ == old(sorted)@,
            sorted_by_name(sorted@),
            forall|j: int|
                0 <= j < p ==> !text_le(c.project.name@, #[trigger] sorted@[j].project.name@),
        decreases sorted.len() - p,
    {
        p = p + 1;
    }
    let ghost s0 = sorted@;
    proof {
        assert forall|m: int| p <= m < s0.len() implies text_le(
            c.project.name@,
            #[trigger] s0[m].project.name@,
        ) by {
            if m > p {
                assert(text_le(s0[p as int].project.name@, s0[m].project.name@));
                lemma_text_le_trans(c.project.name@, s0[p as int].project.name@, s0[m].project.name@);
            }
        }
    }
    sorted.insert(p, c);
    proof {
        let pre = s0.subrange(0, p as int);
        let post = s0.subrange(p as int, s0.len() as int);
        assert(s0 =~= pre + post);
        assert(sorted@ =~= pre.push(c) + post);
        assert forall|n: Seq<char>| #[trigger] with_name(sorted@, n) == if c.project.name@ == n {
            seq![c] + with_name(s0, n)
        } else {
            with_name(s0, n)
        } by {
            let f = |x: ProjectContract| x.project.name@ == n;
            Seq::filter_distributes_over_add(pre.push(c), post, f);
            Seq::filter_distributes_over_add(pre, post, f);
            pre.lemma_filter_push(c, f);
            if c.project.name@ == n {
                lemma_text_le_refl(c.project.name@);
                assert forall|i: int| 0 <= i < pre.len() implies !f(#[trigger] pre[i]) by {
                    assert(pre[i] == s0[i]);
                }
                pre.lemma_all_neg_filter_empty(f);
                assert(pre.filter(f) =~= Seq::<ProjectContract>::empty());
                assert(pre.filter(f).push(c) + post.filter(f) =~= seq![c] + (pre.filter(f) + post.filter(f)));
            }
        }
        vstd::seq_lib::to_multiset_insert(s0, p as int, c);
        let s1 = sorted@;
        assert forall|j: int, k: int| 0 <= j < k < s1.len() implies text_le(
            #[trigger] s1[j].project.name@,
            #[trigger] s1[k].project.name@,
        ) by {
            if j < p && k == p {
                lemma_text_le_total(s0[j].project.name@, c.project.name@);
            } else if j == p && k > p {
                assert(s1[k] == s0[k - 1]);
            } else if j < p && k > p {
                assert(s1[k] == s0[k - 1]);
            } else if j > p {
                assert(s1[j] == s0[j - 1]);
                assert(s1[k] == s0[k - 1]);
            }
        }
    }
}

/// The first entry (path and contract) among the first `n` that breaks a
/// rule, if any.
pub open spec fn first_invalid(found: Seq<(String, ProjectContract)>, n: nat) -> Option<int>
    decreases n,
{
    if n == 0 {
        None
    } else {
        match first_invalid(found, (n - 1) as nat) {
            Some(k) => Some(k),
            None => if contract_error(found[n - 1].1@) is Some {
                Some(n - 1)
            } else {
                None
            },
        }
    }
}

proof fn lemma_first_invalid_stable(found: Seq<(String, ProjectContract)>, n: nat, m: nat)
    requires
        n <= m,
        first_invalid(found, n) is Some,
    ensures
        first_invalid(found, m) == first_invalid(found, n),
    decreases m - n,
{
    if n < m {
        lemma_first_invalid_stable(found, n, (m - 1) as nat);
    }
}

proof fn lemma_first_invalid_none(found: Seq<(String, ProjectContract)>, n: nat)
    requires
        n <= found.len(),
    ensures
        first_invalid(found, n) is None <==> forall|k: int|
            0 <= k < n ==> contract_error((#[trigger] found[k]).1@) is None,
    decreases n,
{
    if n > 0 {
        lemma_first_invalid_none(found, (n - 1) as nat);
    }
}

proof fn lemma_first_invalid_some(found: Seq<(String, ProjectContract)>, n: nat)
    requires
        n <= found.len(),
        first_invalid(found, n) is Some,
    ensures
        0 <= first_invalid(found, n)->0 < n,
        contract_error(found[first_invalid(found, n)->0].1@) is Some,
    decreases n,
{
    if n > 0 && first_invalid(found, (n - 1) as nat) is Some {
        lemma_first_invalid_some(found, (n - 1) as nat);
    }
}

pub open spec fn contracts_of(found: Seq<(String, ProjectContract)>) -> Seq<ProjectContract> {
    found.map_values(|e: (String, ProjectContract)| e.1)
}

impl Store {
    /// All contracts of the registry, given each file of `projects/` (its
    /// path and the contract parsed from it): the first file whose
    /// contract breaks a rule is reported; otherwise the contracts come
    /// back sorted by project name.
    pub fn list_projects(&self, found: Vec<(String, ProjectContract)>) -> (r: Result<
        Vec<ProjectContract>,
        StoreError,
    >)
        ensures
            match first_invalid(found@, found@.len()) {
                None => r matches Ok(list) && sorted_by_name(list@) && list@.to_multiset()
                    == contracts_of(found@).to_multiset() && forall|n: Seq<char>|
                    #[trigger] with_name(list@, n) == with_name(contracts_of(found@), n),
                Some(k) => r matches Err(e) && e@ == (StoreErrorView::Invalid {
                    path: found@[k].0@,
                    error: contract_error(found@[k].1@)->0,
                }),
            },
    {
        let ghost all = found@;
        let mut i: usize = 0;
        while i < found.len()
            invariant
                i <= found.len(),
                found@ == all,
                first_invalid(all, i as nat) is None,
            decreases found.len() - i,
        {
            let checked = found[i].1.validate();
            match checked {
                Ok(()) => {},
                Err(error) => {
                    proof {
                        lemma_first_invalid_stable(all, (i + 1) as nat, all.len());
                    }
                    return Err(StoreError::Invalid { path: found[i].0.clone(), error });
                },
            }
            i = i + 1;
        }
        let mut sorted: Vec<ProjectContract> = Vec::new();
        let mut rest = found;
        let ghost total = contracts_of(all).to_multiset();
        proof {
            broadcast use vstd::multiset::group_multiset_axioms;
            assert(contracts_of(all) =~= contracts_of(rest@));
            assert(contracts_of(all).take(rest.len() as int) =~= contracts_of(all));
            assert(contracts_of(all).skip(rest.len() as int) =~= Seq::<ProjectContract>::empty());
            assert forall|n: Seq<char>| #[trigger] with_name(sorted@, n) == with_name(
                contracts_of(all).skip(rest.len() as int),
                n,
            ) by {
                reveal_with_fuel(Seq::filter, 1);
                assert(sorted@ =~= Seq::<ProjectContract>::empty());
            }
            lemma_empty_to_multiset(sorted@);
            assert(sorted@.to_multiset().add(contracts_of(rest@).to_multiset()) =~= total);
        }
        while rest.len() > 0
            invariant
                sorted_by_name(sorted@),
                sorted@.to_multiset().add(contracts_of(rest@).to_multiset()) == total,
                rest.len() <= all.len(),
                contracts_of(rest@) == contracts_of(all).take(rest.len() as int),
                forall|n: Seq<char>| #[trigger] with_name(sorted@, n) == with_name(
                    contracts_of(all).skip(rest.len() as int),
                    n,
                ),
            decreases rest.len(),
        {
            let ghost before = rest@;
            let (_, c) = rest.pop().unwrap();
            proof {
                assert(contracts_of(before) =~= contracts_of(rest@).push(c));
                vstd::seq_lib::to_multiset_build(contracts_of(rest@), c);
            }
            insert_by_name(&mut sorted, c);
            proof {
                let ca = contracts_of(all);
                let k = rest.len() as int;
                assert(ca[k] == c) by {
                    assert(contracts_of(before) == ca.take(k + 1));
                    assert(contracts_of(before)[k] == c);
                }
                assert(contracts_of(rest@) =~= ca.take(k));
                assert(ca.skip(k) =~= seq![c] + ca.skip(k + 1));
                assert forall|n: Seq<char>| #[trigger] with_name(sorted@, n) == with_name(ca.skip(k), n) by {
                    let f = |x: ProjectContract| x.project.name@ == n;
                    ca.skip(k + 1).lemma_filter_prepend(c, f);
                    if c.project.name@ == n {
                        assert(seq![c] + Seq::<ProjectContract>::empty() =~= seq![c]);
                    } else {
                        assert(Seq::<ProjectContract>::empty() + ca.skip(k + 1).filter(f) =~= ca.skip(k + 1).filter(f));
                    }
                }
                broadcast use vstd::multiset::group_multiset_axioms;
                assert(sorted@.to_multiset().add(contracts_of(rest@).to_multiset()) =~= total);
            }
        }
        proof {
            broadcast use vstd::multiset::group_multiset_axioms;
            assert(contracts_of(rest@) =~= Seq::<ProjectContract>::empty());
            lemma_empty_to_multiset(contracts_of(rest@));
            assert(contracts_of(all).skip(0) =~= contracts_of(all));
            assert(sorted@.to_multiset() =~= total);
        }
        Ok(sorted)
    }
}

fn check_read(path: String, found: Option<ProjectContract>) -> (r: Result<
    Option<ProjectContract>,
    StoreError,
>)
    ensures
        checked_read(path@, found, r),
{
    match found {
        None => Ok(None),
        Some(c) => {
            let checked = c.validate();
            match checked {
                Ok(()) => Ok(Some(c)),
                Err(error) => Err(StoreError::Invalid { path, error }),
            }
        },
    }
}

} // verus!

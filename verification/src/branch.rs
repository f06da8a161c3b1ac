//! The branch: the files above the one that is being expanded, kept in a
//! persistent list, so that each expansion has its own branch and shares
//! what lies above it with the others.
use rpds::List;
use vstd::prelude::*;

verus! {

/// The paths of the files from the one that is being expanded up to the
/// root, in an `rpds::List`.
#[verifier::external_body]
pub struct Branch {
    list: List<String>,
}

/// The items of the list, from its front on: the path entered last comes
/// first.
pub uninterp spec fn listed(branch: Branch) -> Seq<Seq<char>>;

impl View for Branch {
    type V = Seq<Seq<char>>;

    /// The paths on the branch, from the root on.
    open spec fn view(&self) -> Seq<Seq<char>> {
        listed(*self).reverse()
    }
}

/// `List::new` gives a list without items.
#[verifier::external_body]
fn new_list() -> (branch: Branch)
    ensures
        listed(branch) == Seq::<Seq<char>>::empty(),
{
    Branch { list: List::new() }
}

/// `List::push_front` gives a list that holds the new item first and then
/// the items of the list it was called on, which stays as it was.
#[verifier::external_body]
fn push_front(branch: &Branch, path: String) -> (longer: Branch)
    ensures
        listed(longer) == seq![path@] + listed(*branch),
{
    Branch { list: branch.list.push_front(path) }
}

/// `List::iter` hands out the items from the front on; they are copied
/// into a vector in that order.
#[verifier::external_body]
fn items(branch: &Branch) -> (items: Vec<String>)
    ensures
        items.deep_view() == listed(*branch),
{
    branch.list.iter().cloned().collect()
}

/// `List::is_empty` tells whether the list holds no item.
#[verifier::external_body]
fn is_empty(branch: &Branch) -> (empty: bool)
    ensures
        empty == (listed(*branch).len() == 0),
{
    branch.list.is_empty()
}

impl Branch {
    /// The branch of the root: no file above it.
    pub fn new() -> (branch: Branch)
        ensures
            branch@ == Seq::<Seq<char>>::empty(),
    {
        new_list()
    }

    /// Whether this is the branch of the root.
    pub fn at_root(&self) -> (at_root: bool)
        ensures
            at_root == (self@.len() == 0),
    {
        is_empty(self)
    }

    /// The branch below the file under `path`: this branch, and then that
    /// file.
    pub fn below(&self, path: String) -> (longer: Branch)
        ensures
            longer@ == self@.push(path@),
    {
        let longer = push_front(self, path);
        longer
    }

    /// The paths on the branch, from the root on.
    pub fn paths(&self) -> (paths: Vec<String>)
        ensures
            paths.deep_view() == self@,
    {
        let front_first = items(self);
        let n: usize = front_first.len();
        let mut paths: Vec<String> = Vec::new();
        let mut i: usize = n;
        while i > 0
            invariant
                i <= n,
                n == front_first.len(),
                paths.len() == n - i,
                forall|k: int| 0 <= k < paths.len() ==> paths[k]@ == front_first[n - 1 - k]@,
            decreases i,
        {
            i = i - 1;
            paths.push(front_first[i].clone());
        }
        paths
    }

    /// Whether the file under `path` is on the branch.
    pub fn holds(&self, path: &String) -> (found: bool)
        ensures
            found == self@.contains(path@),
    {
        let paths = items(self);
        let mut i: usize = 0;
        while i < paths.len()
            invariant
                i <= paths.len(),
                paths.deep_view() == listed(*self),
                forall|k: int| 0 <= k < i ==> paths.deep_view()[k] != path@,
            decreases paths.len() - i,
        {
            if paths[i] == *path {
                proof {
                    let n = paths.len() as int;
                    assert(self@[n - 1 - i] == path@);
                }
                return true;
            }
            i = i + 1;
        }
        false
    }
}

} // verus!

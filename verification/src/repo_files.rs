//! The Solidity files found per repository: a map from repository name to the
//! (file name, download URL) pairs recorded for it.

use vstd::prelude::*;

verus! {

/// One repository's files.
pub type Group = (String, Vec<(String, String)>);

/// The map that a list of groups stands for: each group's name to its files, a later
/// group of the same name replacing an earlier one.
pub open spec fn groups_map(g: Seq<Group>) -> Map<Seq<char>, Seq<(Seq<char>, Seq<char>)>>
    decreases g.len(),
{
    if g.len() == 0 {
        Map::empty()
    } else {
        groups_map(g.drop_last()).insert(g.last().0@, g.last().1.deep_view())
    }
}

/// No two groups have the same name.
pub open spec fn names_distinct(g: Seq<Group>) -> bool {
    forall|i: int, j: int| 0 <= i < j < g.len() ==> g[i].0@ != g[j].0@
}

/// The names of the map are those of the groups.
pub proof fn lemma_groups_map_dom(g: Seq<Group>, k: Seq<char>)
    ensures
        groups_map(g).dom().contains(k) <==> exists|i: int| 0 <= i < g.len() && g[i].0@ == k,
    decreases g.len(),
{
    if g.len() > 0 {
        lemma_groups_map_dom(g.drop_last(), k);
        if groups_map(g).dom().contains(k) && k != g.last().0@ {
            let i = choose|i: int| 0 <= i < g.len() - 1 && g.drop_last()[i].0@ == k;
            assert(g[i].0@ == k);
        }
        if exists|i: int| 0 <= i < g.len() && g[i].0@ == k {
            let i = choose|i: int| 0 <= i < g.len() && g[i].0@ == k;
            if i < g.len() - 1 {
                assert(g.drop_last()[i].0@ == k);
            }
        }
    }
}

/// With distinct names, the map gives each group's files under its name.
pub proof fn lemma_groups_map_at(g: Seq<Group>, i: int)
    requires
        names_distinct(g),
        0 <= i < g.len(),
    ensures
        groups_map(g).dom().contains(g[i].0@),
        groups_map(g)[g[i].0@] == g[i].1.deep_view(),
    decreases g.len(),
{
    if i < g.len() - 1 {
        lemma_groups_map_at(g.drop_last(), i);
        assert(g.drop_last()[i] == g[i]);
    }
}

/// With distinct names, replacing one group's files updates the map at its name.
pub proof fn lemma_groups_map_update(g: Seq<Group>, i: int, files: Vec<(String, String)>)
    requires
        names_distinct(g),
        0 <= i < g.len(),
    ensures
        groups_map(g.update(i, (g[i].0, files))) == groups_map(g).insert(g[i].0@, files.deep_view()),
    decreases g.len(),
{
    let h = g.update(i, (g[i].0, files));
    if i == g.len() - 1 {
        assert(h.drop_last() =~= g.drop_last());
        assert(groups_map(h) =~= groups_map(g).insert(g[i].0@, files.deep_view()));
    } else {
        lemma_groups_map_update(g.drop_last(), i, files);
        assert(h.drop_last() =~= g.drop_last().update(i, (g[i].0, files)));
        assert(g.last().0@ != g[i].0@);
        assert(groups_map(h) =~= groups_map(g).insert(g[i].0@, files.deep_view()));
    }
}

/// The files found per repository.
pub struct RepoFiles {
    groups: Vec<Group>,
}

impl RepoFiles {
    #[verifier::type_invariant]
    spec fn distinct(&self) -> bool {
        names_distinct(self.groups@)
    }

    /// The files of each repository.
    pub closed spec fn files_map(&self) -> Map<Seq<char>, Seq<(Seq<char>, Seq<char>)>> {
        groups_map(self.groups@)
    }
}

impl View for RepoFiles {
    type V = Map<Seq<char>, Seq<(Seq<char>, Seq<char>)>>;

    open spec fn view(&self) -> Self::V {
        self.files_map()
    }
}

/// The position of the group named `repo`, if any.
fn find_group(groups: &Vec<Group>, repo: &String) -> (found: Option<usize>)
    ensures
        found matches Some(i) ==> i < groups.len() && groups@[i as int].0@ == repo@,
        found is None ==> forall|j: int| 0 <= j < groups.len() ==> groups@[j].0@ != repo@,
{
    let mut i: usize = 0;
    while i < groups.len()
        invariant
            0 <= i <= groups.len(),
            forall|j: int| 0 <= j < i ==> groups@[j].0@ != repo@,
        decreases groups.len() - i,
    {
        if groups[i].0 == *repo {
            return Some(i);
        }
        i += 1;
    }
    None
}

impl RepoFiles {
    /// No repository yet.
    pub fn new() -> (files: RepoFiles)
        ensures
            files@ == Map::<Seq<char>, Seq<(Seq<char>, Seq<char>)>>::empty(),
    {
        let files = RepoFiles { groups: Vec::new() };
        assert(files@ =~= Map::<Seq<char>, Seq<(Seq<char>, Seq<char>)>>::empty());
        files
    }

    /// Records a Solidity file found for `repo`: appended to the repository's files when
    /// the repository is known; when it is not, the repository is added with no files
    /// (this first file is not recorded).
    pub fn record_file(&mut self, repo: String, name: String, download_url: String)
        ensures
            final(self)@ == if old(self)@.dom().contains(repo@) {
                old(self)@.insert(repo@, old(self)@[repo@].push((name@, download_url@)))
            } else {
                old(self)@.insert(repo@, Seq::<(Seq<char>, Seq<char>)>::empty())
            },
    {
        proof {
            use_type_invariant(&*self);
        }
        let mut groups: Vec<Group> = Vec::new();
        std::mem::swap(&mut groups, &mut self.groups);
        let ghost g0 = groups@;
        proof {
            lemma_groups_map_dom(g0, repo@);
        }
        match find_group(&groups, &repo) {
            Some(i) => {
                proof {
                    lemma_groups_map_at(g0, i as int);
                }
                let (key, mut files) = groups.remove(i);
                let ghost old_files = files.deep_view();
                files.push((name, download_url));
                assert(files.deep_view() =~= old_files.push((name@, download_url@)));
                groups.insert(i, (key, files));
                proof {
                    assert(groups@ =~= g0.update(i as int, (g0[i as int].0, files)));
                    lemma_groups_map_update(g0, i as int, files);
                    assert forall|a: int, b: int| 0 <= a < b < groups@.len() implies groups@[a].0@
                        != groups@[b].0@ by {
                        assert(groups@[a].0 == g0[a].0);
                        assert(groups@[b].0 == g0[b].0);
                    }
                }
                self.groups = groups;
            },
            None => {
                let files: Vec<(String, String)> = Vec::new();
                assert(files.deep_view() =~= Seq::<(Seq<char>, Seq<char>)>::empty());
                groups.push((repo, files));
                proof {
                    assert(groups@.drop_last() =~= g0);
                }
                self.groups = groups;
            },
        }
    }

    /// The repositories and their files, in the order in which the repositories were added.
    pub fn groups(&self) -> (g: &Vec<Group>)
        ensures
            groups_map(g@) == self@,
            names_distinct(g@),
    {
        proof {
            use_type_invariant(self);
        }
        &self.groups
    }
}

} // verus!

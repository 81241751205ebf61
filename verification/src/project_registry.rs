use vstd::prelude::*;

use crate::keyed::{kmap, lemma_kmap_at, lemma_kmap_dom, lemma_kmap_len, lemma_kmap_push, lemma_kmap_remove, lemma_kmap_update, unique_keys};
use crate::lex::{lemma_lex_asym, lemma_lex_total, lemma_lex_trans, lex_less, lex_lt};
use crate::storage_types::{ProjectInfo, ProjectStats};
use crate::text::{append_chars, chars_of, owned, same_text, string_of};

verus! {

/// A project to register: its id and its name.
pub struct ProjectIdentifier {
    pub id: String,
    pub name: String,
}

/// Totals over all registered projects.
pub struct GlobalStats {
    pub total_projects: usize,
    pub total_pages: usize,
    pub total_chunks: usize,
    pub total_disk_usage: u64,
}

/// What a project's record says: name, path, creation time, last access, and its
/// statistics (pages, chunks, unique vectors, disk usage).
pub type InfoView = (Seq<char>, Seq<char>, Seq<char>, Seq<char>, (nat, nat, nat, nat));

pub open spec fn info_view(i: ProjectInfo) -> InfoView {
    (
        i.name@,
        i.path@,
        i.created_at@,
        i.last_accessed@,
        (i.stats.page_count as nat, i.stats.chunk_count as nat, i.stats.unique_vector_count as nat, i.stats.disk_usage as nat),
    )
}

pub open spec fn project_list(v: Seq<(String, ProjectInfo)>) -> Seq<(Seq<char>, InfoView)> {
    v.map_values(|e: (String, ProjectInfo)| (e.0@, info_view(e.1)))
}

/// `a` joined to `b` as a path: with one `/` between them unless `a` is empty or ends
/// with one.
pub open spec fn path_join(a: Seq<char>, b: Seq<char>) -> Seq<char> {
    if a.len() == 0 {
        b
    } else if a.last() == '/' {
        a + b
    } else {
        a + seq!['/'] + b
    }
}

/// Joins two paths (see `path_join`).
pub fn join_path(a: &str, b: &str) -> (r: String)
    ensures
        r@ == path_join(a@, b@),
{
    let mut v = chars_of(a);
    if v.len() > 0 && v[v.len() - 1] != '/' {
        v.push('/');
    }
    append_chars(&mut v, &chars_of(b));
    let r = string_of(&v);
    proof {
        if a@.len() > 0 && a@.last() != '/' {
            assert(r@ =~= a@ + seq!['/'] + b@);
        }
    }
    r
}

fn copy_info(i: &ProjectInfo) -> (r: ProjectInfo)
    ensures
        info_view(r) == info_view(*i),
{
    ProjectInfo {
        name: i.name.clone(),
        path: i.path.clone(),
        created_at: i.created_at.clone(),
        last_accessed: i.last_accessed.clone(),
        stats: i.stats,
    }
}

/// The project registry: project id to project record.
pub struct ProjectRegistry {
    registry_path: String,
    projects: Vec<(String, ProjectInfo)>,
}

/// The registry after registering project `id` named `name` at `path` at time `now`: a
/// known project gets the new path and access time; a new one gets a fresh record.
pub open spec fn register_spec(m: Map<Seq<char>, InfoView>, id: Seq<char>, name: Seq<char>, path: Seq<char>, now: Seq<char>) -> Map<Seq<char>, InfoView> {
    if m.dom().contains(id) {
        m.insert(id, (m[id].0, path, m[id].2, now, m[id].4))
    } else {
        m.insert(id, (name, path, now, now, (0, 0, 0, 0)))
    }
}

/// The records are listed most recently accessed first.
pub open spec fn sorted_by_access(s: Seq<InfoView>) -> bool {
    forall|a: int, b: int| 0 <= a < b < s.len() ==> !lex_lt(#[trigger] s[a].3, #[trigger] s[b].3)
}

impl ProjectRegistry {
    #[verifier::type_invariant]
    spec fn wf(self) -> bool {
        unique_keys(project_list(self.projects@))
    }

    /// The registry as a map from project id to record.
    pub closed spec fn projects_map(self) -> Map<Seq<char>, InfoView> {
        kmap(project_list(self.projects@))
    }

    /// The records in registration order.
    pub closed spec fn records(self) -> Seq<InfoView> {
        project_list(self.projects@).map_values(|e: (Seq<char>, InfoView)| e.1)
    }

    pub closed spec fn registry_path_spec(self) -> Seq<char> {
        self.registry_path@
    }

    /// The entries (project id and record) in registration order.
    pub closed spec fn entry_list(self) -> Seq<(Seq<char>, InfoView)> {
        project_list(self.projects@)
    }

    /// No project id is listed twice; every registry that the operations give is so.
    pub closed spec fn consistent(self) -> bool {
        unique_keys(project_list(self.projects@))
    }

    /// The records are the registered projects: `projects_map` is the map of the entries,
    /// the records are their second parts, one for each registered project id.
    pub proof fn lemma_records_are_projects(self)
        requires
            self.consistent(),
        ensures
            self.projects_map() == kmap(self.entry_list()),
            unique_keys(self.entry_list()),
            self.records() == self.entry_list().map_values(|e: (Seq<char>, InfoView)| e.1),
            self.records().len() == self.projects_map().dom().len(),
            forall|k: int|
                0 <= k < self.records().len() ==> self.projects_map().dom().contains(#[trigger] self.entry_list()[k].0)
                    && self.projects_map()[self.entry_list()[k].0] == self.records()[k],
            forall|id: Seq<char>|
                #[trigger] self.projects_map().dom().contains(id) ==> exists|k: int|
                    0 <= k < self.records().len() && #[trigger] self.entry_list()[k].0 == id && self.records()[k]
                        == self.projects_map()[id],
    {
        let l = self.entry_list();
        lemma_kmap_len(l);
        assert forall|k: int| 0 <= k < self.records().len() implies self.projects_map().dom().contains(
            #[trigger] self.entry_list()[k].0,
        ) && self.projects_map()[self.entry_list()[k].0] == self.records()[k] by {
            lemma_kmap_at(l, k);
        }
        assert forall|id: Seq<char>| #[trigger] self.projects_map().dom().contains(id) implies exists|k: int|
            0 <= k < self.records().len() && #[trigger] self.entry_list()[k].0 == id && self.records()[k] == self.projects_map()[id] by {
            lemma_kmap_dom(l, id);
            let k = choose|k: int| 0 <= k < l.len() && #[trigger] l[k].0 == id;
            lemma_kmap_at(l, k);
        }
    }

    /// An empty registry kept at `<root>/.projects/registry.json`.
    pub fn new(global_storage_root: &str) -> (r: Self)
        ensures
            r.registry_path_spec() == path_join(path_join(global_storage_root@, ".projects"@), "registry.json"@),
            r.projects_map() == Map::<Seq<char>, InfoView>::empty(),
            r.records() == Seq::<InfoView>::empty(),
            r.consistent(),
    {
        let dir = join_path(global_storage_root, ".projects");
        let registry_path = join_path(dir.as_str(), "registry.json");
        let r = ProjectRegistry { registry_path, projects: Vec::new() };
        proof {
            assert(project_list(r.projects@) =~= Seq::<(Seq<char>, InfoView)>::empty());
            assert(r.records() =~= Seq::<InfoView>::empty());
        }
        r
    }

    fn find(&self, id: &str) -> (r: Option<usize>)
        ensures
            match r {
                Some(i) => i < self.projects.len() && self.projects@[i as int].0@ == id@,
                None => !self.projects_map().dom().contains(id@),
            },
    {
        let key = owned(id);
        let mut i: usize = 0;
        while i < self.projects.len()
            invariant
                i <= self.projects.len(),
                key@ == id@,
                forall|j: int| 0 <= j < i ==> #[trigger] self.projects@[j].0@ != id@,
            decreases self.projects.len() - i,
        {
            if same_text(&self.projects[i].0, &key) {
                return Some(i);
            }
            i = i + 1;
        }
        proof {
            lemma_kmap_dom(project_list(self.projects@), id@);
            assert forall|j: int| 0 <= j < self.projects.len() implies #[trigger] project_list(self.projects@)[j].0 != id@ by {
                assert(project_list(self.projects@)[j].0 == self.projects@[j].0@);
            }
        }
        None
    }

    /// Adds or replaces the record of a project.
    pub fn put(&mut self, id: String, info: ProjectInfo)
        ensures
            final(self).projects_map() == old(self).projects_map().insert(id@, info_view(info)),
            final(self).registry_path_spec() == old(self).registry_path_spec(),
            final(self).consistent(),
    {
        proof {
            use_type_invariant(&*self);
        }
        let ghost pl = project_list(self.projects@);
        let found = self.find(id.as_str());
        let mut ps: Vec<(String, ProjectInfo)> = Vec::new();
        proof {
            assert(project_list(ps@) =~= Seq::<(Seq<char>, InfoView)>::empty());
        }
        std::mem::swap(&mut ps, &mut self.projects);
        match found {
            Some(i) => {
                proof {
                    assert(pl[i as int].0 == id@);
                    lemma_kmap_update(pl, i as int, info_view(info));
                }
                ps.set(i, (id, info));
                proof {
                    assert(project_list(ps@) =~= pl.update(i as int, (pl[i as int].0, info_view(info))));
                }
            },
            None => {
                proof {
                    lemma_kmap_push(pl, id@, info_view(info));
                }
                let ghost iv = info_view(info);
                let ghost idv = id@;
                ps.push((id, info));
                proof {
                    assert(project_list(ps@) =~= pl.push((idv, iv)));
                }
            },
        }
        self.projects = ps;
        proof {
            use_type_invariant(&*self);
        }
    }

    /// Registers a project, or updates the path and access time of a known one; the
    /// project's record after.
    pub fn register_project(&mut self, identifier: &ProjectIdentifier, project_path: &str) -> (r: ProjectInfo)
        ensures
            exists|now: Seq<char>| final(self).projects_map() == register_spec(old(self).projects_map(), identifier.id@, identifier.name@, project_path@, now),
            final(self).projects_map().dom().contains(identifier.id@),
            info_view(r) == final(self).projects_map()[identifier.id@],
            final(self).registry_path_spec() == old(self).registry_path_spec(),
            final(self).consistent(),
    {
        proof {
            use_type_invariant(&*self);
        }
        let now = crate::clock::now_rfc3339();
        let info = match self.find(identifier.id.as_str()) {
            Some(i) => {
                proof {
                    lemma_kmap_at(project_list(self.projects@), i as int);
                }
                let old_info = &self.projects[i].1;
                ProjectInfo {
                    name: old_info.name.clone(),
                    path: owned(project_path),
                    created_at: old_info.created_at.clone(),
                    last_accessed: now.clone(),
                    stats: old_info.stats,
                }
            },
            None => ProjectInfo {
                name: identifier.name.clone(),
                path: owned(project_path),
                created_at: now.clone(),
                last_accessed: now.clone(),
                stats: ProjectStats::default(),
            },
        };
        let r = copy_info(&info);
        self.put(identifier.id.clone(), info);
        proof {
            assert(self.projects_map() == register_spec(old(self).projects_map(), identifier.id@, identifier.name@, project_path@, now@));
            use_type_invariant(&*self);
        }
        r
    }

    /// The record of a project.
    pub fn get_project(&self, project_id: &str) -> (r: Result<Option<ProjectInfo>, String>)
        ensures
            r matches Ok(o) && match o {
                Some(i) => self.projects_map().dom().contains(project_id@) && info_view(i) == self.projects_map()[project_id@],
                None => !self.projects_map().dom().contains(project_id@),
            },
    {
        proof {
            use_type_invariant(self);
        }
        match self.find(project_id) {
            Some(i) => {
                proof {
                    lemma_kmap_at(project_list(self.projects@), i as int);
                }
                Ok(Some(copy_info(&self.projects[i].1)))
            },
            None => Ok(None),
        }
    }

    /// A project registered at `path`: the first one, in registration order.
    pub fn get_project_by_path(&self, path: &str) -> (r: Option<&ProjectInfo>)
        ensures
            match r {
                Some(i) => i.path@ == path@ && self.records().contains(info_view(*i)),
                None => forall|k: int| 0 <= k < self.records().len() ==> #[trigger] self.records()[k].1 != path@,
            },
    {
        let p = owned(path);
        let mut i: usize = 0;
        while i < self.projects.len()
            invariant
                i <= self.projects.len(),
                p@ == path@,
                forall|k: int| 0 <= k < i ==> #[trigger] self.records()[k].1 != path@,
            decreases self.projects.len() - i,
        {
            proof {
                assert(self.records()[i as int] == info_view(self.projects@[i as int].1));
            }
            if same_text(&self.projects[i].1.path, &p) {
                return Some(&self.projects[i].1);
            }
            i = i + 1;
        }
        None
    }

    /// All records, most recently accessed first.
    pub fn list_projects(&self) -> (r: Result<Vec<ProjectInfo>, String>)
        ensures
            r matches Ok(v) && {
                let s = v@.map_values(|i: ProjectInfo| info_view(i));
                &&& sorted_by_access(s)
                &&& s.to_multiset() == self.records().to_multiset()
            },
    {
        let ghost recs = self.records();
        let mut out: Vec<ProjectInfo> = Vec::new();
        let mut i: usize = 0;
        proof {
            assert(recs.take(0) =~= Seq::<InfoView>::empty());
            assert(out@.map_values(|i: ProjectInfo| info_view(i)) =~= Seq::<InfoView>::empty());
        }
        while i < self.projects.len()
            invariant
                i <= self.projects.len(),
                recs == self.records(),
                recs.len() == self.projects.len(),
                sorted_by_access(out@.map_values(|i: ProjectInfo| info_view(i))),
                out@.map_values(|i: ProjectInfo| info_view(i)).to_multiset() == recs.take(i as int).to_multiset(),
            decreases self.projects.len() - i,
        {
            let x = &self.projects[i].1;
            let ghost s = out@.map_values(|i: ProjectInfo| info_view(i));
            proof {
                assert(recs[i as int] == info_view(*x));
            }
            let mut pos: usize = 0;
            while pos < out.len() && !lex_less(&out[pos].last_accessed, &x.last_accessed)
                invariant
                    pos <= out.len(),
                    s == out@.map_values(|i: ProjectInfo| info_view(i)),
                    forall|k: int| 0 <= k < pos ==> !lex_lt(#[trigger] s[k].3, x.last_accessed@),
                decreases out.len() - pos,
            {
                proof {
                    assert(s[pos as int].3 == out@[pos as int].last_accessed@);
                }
                pos = pos + 1;
            }
            proof {
                if pos < out.len() {
                    assert(s[pos as int].3 == out@[pos as int].last_accessed@);
                }
            }
            out.insert(pos, copy_info(x));
            proof {
                let s2 = out@.map_values(|i: ProjectInfo| info_view(i));
                let v = info_view(*x);
                assert(s2 =~= s.insert(pos as int, v));
                assert(recs.take(i + 1) =~= recs.take(i as int).push(v));
                vstd::seq_lib::to_multiset_insert(s, pos as int, v);
                assert(recs.take(i as int).push(v).to_multiset() =~= recs.take(i as int).to_multiset().insert(v)) by {
                    vstd::seq_lib::to_multiset_build(recs.take(i as int), v);
                }
                assert forall|a: int, b: int| 0 <= a < b < s2.len() implies !lex_lt(#[trigger] s2[a].3, #[trigger] s2[b].3) by {
                    if a < pos && b == pos {
                        assert(s2[a] == s[a]);
                    } else if a == pos && b > pos {
                        assert(s2[b] == s[b - 1]);
                        assert(pos < s.len());
                        assert(lex_lt(s[pos as int].3, v.3));
                        if pos < b - 1 {
                            assert(!lex_lt(s[pos as int].3, s[b - 1].3));
                            lemma_lex_total(s[pos as int].3, s[b - 1].3);
                            if lex_lt(s[b - 1].3, s[pos as int].3) {
                                lemma_lex_trans(s[b - 1].3, s[pos as int].3, v.3);
                            }
                        }
                        lemma_lex_asym(v.3, s[b - 1].3);
                    } else if a < pos && b < pos {
                        assert(s2[a] == s[a]);
                        assert(s2[b] == s[b]);
                    } else if a > pos {
                        assert(s2[a] == s[a - 1]);
                        assert(s2[b] == s[b - 1]);
                    } else {
                        assert(s2[a] == s[a]);
                        assert(s2[b] == s[b - 1]);
                    }
                }
            }
            i = i + 1;
        }
        proof {
            assert(recs.take(self.projects.len() as int) =~= recs);
        }
        Ok(out)
    }

    /// Sets the statistics of a known project and its access time to now; nothing for an
    /// unknown one.
    pub fn update_stats(&mut self, project_id: &str, stats: ProjectStats)
        ensures
            !old(self).projects_map().dom().contains(project_id@) ==> final(self).projects_map() == old(self).projects_map(),
            old(self).projects_map().dom().contains(project_id@) ==> exists|now: Seq<char>| final(self).projects_map() == old(self).projects_map().insert(
                project_id@,
                (old(self).projects_map()[project_id@].0, old(self).projects_map()[project_id@].1, old(self).projects_map()[project_id@].2, now,
                (stats.page_count as nat, stats.chunk_count as nat, stats.unique_vector_count as nat, stats.disk_usage as nat)),
            ),
            final(self).registry_path_spec() == old(self).registry_path_spec(),
            final(self).consistent(),
    {
        proof {
            use_type_invariant(&*self);
        }
        match self.find(project_id) {
            Some(i) => {
                proof {
                    lemma_kmap_at(project_list(self.projects@), i as int);
                }
                let now = crate::clock::now_rfc3339();
                let ghost nv = now@;
                let old_info = &self.projects[i].1;
                let info = ProjectInfo {
                    name: old_info.name.clone(),
                    path: old_info.path.clone(),
                    created_at: old_info.created_at.clone(),
                    last_accessed: now,
                    stats,
                };
                let id = self.projects[i].0.clone();
                self.put(id, info);
                proof {
                    let m = old(self).projects_map();
                    assert(self.projects_map() == m.insert(
                        project_id@,
                        (m[project_id@].0, m[project_id@].1, m[project_id@].2, nv,
                        (stats.page_count as nat, stats.chunk_count as nat, stats.unique_vector_count as nat, stats.disk_usage as nat)),
                    ));
                }
            },
            None => {},
        }
        proof {
            use_type_invariant(&*self);
        }
    }

    /// Removes a project from the registry (its data stays where it is).
    pub fn unregister_project(&mut self, project_id: &str)
        ensures
            final(self).projects_map() == old(self).projects_map().remove(project_id@),
            final(self).registry_path_spec() == old(self).registry_path_spec(),
            final(self).consistent(),
    {
        proof {
            use_type_invariant(&*self);
        }
        let ghost pl = project_list(self.projects@);
        match self.find(project_id) {
            Some(i) => {
                let mut ps: Vec<(String, ProjectInfo)> = Vec::new();
                proof {
                    assert(project_list(ps@) =~= Seq::<(Seq<char>, InfoView)>::empty());
                }
                std::mem::swap(&mut ps, &mut self.projects);
                proof {
                    lemma_kmap_remove(pl, i as int);
                }
                ps.remove(i);
                proof {
                    assert(project_list(ps@) =~= pl.remove(i as int));
                }
                self.projects = ps;
            },
            None => {
                proof {
                    assert(self.projects_map() =~= old(self).projects_map().remove(project_id@));
                }
            },
        }
        proof {
            use_type_invariant(&*self);
        }
    }

    /// The entries (id and record), to be saved.
    pub fn entries(&self) -> (r: &Vec<(String, ProjectInfo)>)
        ensures
            kmap(project_list(r@)) == self.projects_map(),
    {
        &self.projects
    }

    /// Where the registry is saved.
    pub fn registry_path(&self) -> (r: &String)
        ensures
            r@ == self.registry_path_spec(),
    {
        &self.registry_path
    }
}

/// Law: every registered project is among the records that `get_project_by_path`,
/// `list_projects` and `get_global_stats` read, so after `register_project` a lookup by
/// the project's path finds a project there.
pub proof fn lemma_registered_is_listed(reg: ProjectRegistry, id: Seq<char>)
    requires
        reg.consistent(),
        reg.projects_map().dom().contains(id),
    ensures
        exists|k: int| 0 <= k < reg.records().len() && #[trigger] reg.records()[k] == reg.projects_map()[id],
{
    reg.lemma_records_are_projects();
    let k = choose|k: int| 0 <= k < reg.records().len() && #[trigger] reg.entry_list()[k].0 == id && reg.records()[k] == reg.projects_map()[id];
    assert(reg.records()[k] == reg.projects_map()[id]);
}

/// The sum of statistic `k` (0 pages, 1 chunks, 3 disk usage) over the records.
pub open spec fn stat_sum(recs: Seq<InfoView>, k: int) -> nat
    decreases recs.len(),
{
    if recs.len() == 0 {
        0
    } else {
        stat_sum(recs.drop_last(), k) + if k == 0 {
            recs.last().4.0
        } else if k == 1 {
            recs.last().4.1
        } else {
            recs.last().4.3
        }
    }
}

impl ProjectRegistry {
    /// Totals over all projects; the sums must fit their types.
    pub fn get_global_stats(&self) -> (r: Result<GlobalStats, String>)
        requires
            stat_sum(self.records(), 0) <= usize::MAX,
            stat_sum(self.records(), 1) <= usize::MAX,
            stat_sum(self.records(), 3) <= u64::MAX,
        ensures
            r matches Ok(g) && {
                &&& g.total_projects == self.projects_map().dom().len()
                &&& g.total_pages == stat_sum(self.records(), 0)
                &&& g.total_chunks == stat_sum(self.records(), 1)
                &&& g.total_disk_usage == stat_sum(self.records(), 3)
            },
    {
        proof {
            use_type_invariant(self);
            lemma_kmap_len(project_list(self.projects@));
        }
        let ghost recs = self.records();
        let mut pages: usize = 0;
        let mut chunks: usize = 0;
        let mut disk: u64 = 0;
        let mut i: usize = 0;
        proof {
            assert(recs.take(0) =~= Seq::<InfoView>::empty());
        }
        while i < self.projects.len()
            invariant
                i <= self.projects.len(),
                recs == self.records(),
                recs.len() == self.projects.len(),
                stat_sum(recs, 0) <= usize::MAX,
                stat_sum(recs, 1) <= usize::MAX,
                stat_sum(recs, 3) <= u64::MAX,
                pages == stat_sum(recs.take(i as int), 0),
                chunks == stat_sum(recs.take(i as int), 1),
                disk == stat_sum(recs.take(i as int), 3),
            decreases self.projects.len() - i,
        {
            let st = self.projects[i].1.stats;
            proof {
                assert(recs.take(i + 1).drop_last() =~= recs.take(i as int));
                assert(recs.take(i + 1).last() == recs[i as int]);
                assert(recs[i as int] == info_view(self.projects@[i as int].1));
                lemma_stat_sum_prefix(recs, i + 1, 0);
                lemma_stat_sum_prefix(recs, i + 1, 1);
                lemma_stat_sum_prefix(recs, i + 1, 3);
            }
            pages = pages + st.page_count;
            chunks = chunks + st.chunk_count;
            disk = disk + st.disk_usage;
            i = i + 1;
        }
        proof {
            assert(recs.take(self.projects.len() as int) =~= recs);
        }
        Ok(GlobalStats { total_projects: self.projects.len(), total_pages: pages, total_chunks: chunks, total_disk_usage: disk })
    }
}

impl ProjectRegistry {
    /// Totals over all projects, when their sums fit their types (`None` when one does
    /// not): `get_global_stats` after checking what it requires.
    pub fn global_stats_checked(&self) -> (r: Option<GlobalStats>)
        ensures
            r is Some <==> (stat_sum(self.records(), 0) <= usize::MAX && stat_sum(self.records(), 1) <= usize::MAX
                && stat_sum(self.records(), 3) <= u64::MAX),
            r matches Some(g) ==> {
                &&& g.total_projects == self.projects_map().dom().len()
                &&& g.total_pages == stat_sum(self.records(), 0)
                &&& g.total_chunks == stat_sum(self.records(), 1)
                &&& g.total_disk_usage == stat_sum(self.records(), 3)
            },
    {
        let ghost recs = self.records();
        let mut pages: usize = 0;
        let mut chunks: usize = 0;
        let mut disk: u64 = 0;
        let mut i: usize = 0;
        proof {
            assert(recs.take(0) =~= Seq::<InfoView>::empty());
        }
        while i < self.projects.len()
            invariant
                i <= self.projects.len(),
                recs == self.records(),
                recs.len() == self.projects.len(),
                pages == stat_sum(recs.take(i as int), 0),
                chunks == stat_sum(recs.take(i as int), 1),
                disk == stat_sum(recs.take(i as int), 3),
            decreases self.projects.len() - i,
        {
            let st = self.projects[i].1.stats;
            proof {
                assert(recs.take(i + 1).drop_last() =~= recs.take(i as int));
                assert(recs.take(i + 1).last() == recs[i as int]);
                assert(recs[i as int] == info_view(self.projects@[i as int].1));
                lemma_stat_sum_prefix(recs, i + 1, 0);
                lemma_stat_sum_prefix(recs, i + 1, 1);
                lemma_stat_sum_prefix(recs, i + 1, 3);
            }
            match pages.checked_add(st.page_count) {
                Some(x) => {
                    pages = x;
                },
                None => {
                    return None;
                },
            }
            match chunks.checked_add(st.chunk_count) {
                Some(x) => {
                    chunks = x;
                },
                None => {
                    return None;
                },
            }
            match disk.checked_add(st.disk_usage) {
                Some(x) => {
                    disk = x;
                },
                None => {
                    return None;
                },
            }
            i = i + 1;
        }
        proof {
            assert(recs.take(self.projects.len() as int) =~= recs);
        }
        match self.get_global_stats() {
            Ok(g) => Some(g),
            Err(_) => None,
        }
    }
}

pub proof fn lemma_stat_sum_prefix(recs: Seq<InfoView>, i: int, k: int)
    requires
        0 <= i <= recs.len(),
    ensures
        stat_sum(recs.take(i), k) <= stat_sum(recs, k),
    decreases recs.len() - i,
{
    if i < recs.len() {
        lemma_stat_sum_prefix(recs, i + 1, k);
        assert(recs.take(i + 1).drop_last() =~= recs.take(i));
    } else {
        assert(recs.take(i) =~= recs);
    }
}

} // verus!

//! Task and topology descriptions in their XML form: a root element holding
//! `job` elements, each with `id`, `runtime` and nested `uses` elements
//! (`link`, `size`), and `child` elements (`ref`) whose `i`-th nested
//! `parent` (`ref`) feeds the child's `i`-th input.
use crate::graph::Dependency;
use crate::xml::{
    attribute, attribute_of, children, element_children, parse_u64, text_is, u64_text, XmlNode,
};
use vstd::prelude::*;

verus! {

#[derive(Clone, Copy, Debug, PartialEq, Eq, Structural)]
pub enum ParseError {
    /// The document has no root element.
    NoRoot,
    /// An element has a tag that the format does not allow there.
    UnexpectedTag,
    /// A required attribute is absent.
    MissingAttribute,
    /// A size is not a number, or a sum of sizes overflows.
    BadNumber,
    /// A `ref` names no job declared before it.
    UnknownRef,
    /// A child lists a different number of parents than its job has inputs.
    CountMismatch,
}

/// A `job` element: its id, its runtime text, and the size texts of its
/// input uses and of its other uses, in document order.
#[derive(Clone, Debug)]
pub struct JobRecord {
    pub id: String,
    pub runtime: String,
    pub inputs: Vec<String>,
    pub others: Vec<String>,
}

/// Input `input` of job `child` is produced by job `parent`.
#[derive(Clone, Copy, Debug, PartialEq, Eq, Structural)]
pub struct Link {
    pub parent: usize,
    pub child: usize,
    pub input: usize,
}

pub ghost struct JobView {
    pub id: Seq<char>,
    pub runtime: Seq<char>,
    pub inputs: Seq<Seq<char>>,
    pub others: Seq<Seq<char>>,
}

pub open spec fn texts(v: Seq<String>) -> Seq<Seq<char>> {
    v.map_values(|s: String| s@)
}

pub open spec fn job_view(j: JobRecord) -> JobView {
    JobView { id: j.id@, runtime: j.runtime@, inputs: texts(j.inputs@), others: texts(j.others@) }
}

pub open spec fn jobs_view(v: Seq<JobRecord>) -> Seq<JobView> {
    v.map_values(|j: JobRecord| job_view(j))
}

/// The uses among the first `k` element children `cs` of a job: the input
/// sizes and the other sizes.
pub open spec fn uses_upto(nodes: Seq<XmlNode>, cs: Seq<usize>, k: int) -> Result<
    (Seq<Seq<char>>, Seq<Seq<char>>),
    ParseError,
>
    decreases k,
{
    if k <= 0 || k > cs.len() {
        Ok((Seq::empty(), Seq::empty()))
    } else {
        match uses_upto(nodes, cs, k - 1) {
            Err(e) => Err(e),
            Ok((ins, outs)) => {
                let c = nodes[cs[k - 1] as int];
                if c.tag@ != "uses"@ {
                    Err(ParseError::UnexpectedTag)
                } else {
                    match (attribute_of(c, "link"@), attribute_of(c, "size"@)) {
                        (Some(l), Some(s)) => if l == "input"@ {
                            Ok((ins.push(s), outs))
                        } else {
                            Ok((ins, outs.push(s)))
                        },
                        _ => Err(ParseError::MissingAttribute),
                    }
                }
            },
        }
    }
}

/// The last job among the first `k` whose id is `id`.
pub open spec fn lookup_upto(jobs: Seq<JobView>, id: Seq<char>, k: int) -> Option<int>
    decreases k,
{
    if k <= 0 || k > jobs.len() {
        None
    } else if jobs[k - 1].id == id {
        Some(k - 1)
    } else {
        lookup_upto(jobs, id, k - 1)
    }
}

pub open spec fn lookup(jobs: Seq<JobView>, id: Seq<char>) -> Option<int> {
    lookup_upto(jobs, id, jobs.len() as int)
}

/// The links made by the first `k` parents `ps` of a child of job `ci`.
pub open spec fn parents_upto(nodes: Seq<XmlNode>, jobs: Seq<JobView>, ps: Seq<usize>, ci: usize, k: int) -> Result<
    Seq<Link>,
    ParseError,
>
    decreases k,
{
    if k <= 0 || k > ps.len() {
        Ok(Seq::empty())
    } else {
        match parents_upto(nodes, jobs, ps, ci, k - 1) {
            Err(e) => Err(e),
            Ok(links) => {
                let p = nodes[ps[k - 1] as int];
                if p.tag@ != "parent"@ {
                    Err(ParseError::UnexpectedTag)
                } else {
                    match attribute_of(p, "ref"@) {
                        None => Err(ParseError::MissingAttribute),
                        Some(r) => match lookup(jobs, r) {
                            None => Err(ParseError::UnknownRef),
                            Some(pi) => Ok(links.push(Link { parent: pi as usize, child: ci, input: (k - 1) as usize })),
                        },
                    }
                }
            },
        }
    }
}

/// What one top-level element adds to the jobs and links read so far.
pub open spec fn step(nodes: Seq<XmlNode>, jobs: Seq<JobView>, links: Seq<Link>, t: usize) -> Result<
    (Seq<JobView>, Seq<Link>),
    ParseError,
> {
    let n = nodes[t as int];
    if n.tag@ == "job"@ {
        match (attribute_of(n, "id"@), attribute_of(n, "runtime"@)) {
            (Some(id), Some(rt)) => {
                let cs = element_children(nodes, t);
                match uses_upto(nodes, cs, cs.len() as int) {
                    Err(e) => Err(e),
                    Ok((ins, outs)) => Ok((jobs.push(JobView { id, runtime: rt, inputs: ins, others: outs }), links)),
                }
            },
            _ => Err(ParseError::MissingAttribute),
        }
    } else if n.tag@ == "child"@ {
        match attribute_of(n, "ref"@) {
            None => Err(ParseError::MissingAttribute),
            Some(r) => match lookup(jobs, r) {
                None => Err(ParseError::UnknownRef),
                Some(ci) => {
                    let ps = element_children(nodes, t);
                    if ps.len() != jobs[ci].inputs.len() {
                        Err(ParseError::CountMismatch)
                    } else {
                        match parents_upto(nodes, jobs, ps, ci as usize, ps.len() as int) {
                            Err(e) => Err(e),
                            Ok(more) => Ok((jobs, links + more)),
                        }
                    }
                },
            },
        }
    } else {
        Err(ParseError::UnexpectedTag)
    }
}

/// The jobs and links read from the first `k` top-level elements `ts`.
pub open spec fn top_upto(nodes: Seq<XmlNode>, ts: Seq<usize>, k: int) -> Result<
    (Seq<JobView>, Seq<Link>),
    ParseError,
>
    decreases k,
{
    if k <= 0 || k > ts.len() {
        Ok((Seq::empty(), Seq::empty()))
    } else {
        match top_upto(nodes, ts, k - 1) {
            Err(e) => Err(e),
            Ok((jobs, links)) => step(nodes, jobs, links, ts[k - 1]),
        }
    }
}

/// The jobs and links of a document whose nodes are `nodes`.
pub open spec fn workflow_of(nodes: Seq<XmlNode>) -> Result<(Seq<JobView>, Seq<Link>), ParseError> {
    let roots = element_children(nodes, 0);
    if roots.len() == 0 {
        Err(ParseError::NoRoot)
    } else {
        let ts = element_children(nodes, roots[0]);
        top_upto(nodes, ts, ts.len() as int)
    }
}

proof fn lemma_uses_err(nodes: Seq<XmlNode>, cs: Seq<usize>, k: int, m: int)
    requires
        0 <= k <= m <= cs.len(),
        uses_upto(nodes, cs, k) is Err,
    ensures
        uses_upto(nodes, cs, m) == uses_upto(nodes, cs, k),
    decreases m - k,
{
    if m > k {
        lemma_uses_err(nodes, cs, k, m - 1);
    }
}

proof fn lemma_parents_err(nodes: Seq<XmlNode>, jobs: Seq<JobView>, ps: Seq<usize>, ci: usize, k: int, m: int)
    requires
        0 <= k <= m <= ps.len(),
        parents_upto(nodes, jobs, ps, ci, k) is Err,
    ensures
        parents_upto(nodes, jobs, ps, ci, m) == parents_upto(nodes, jobs, ps, ci, k),
    decreases m - k,
{
    if m > k {
        lemma_parents_err(nodes, jobs, ps, ci, k, m - 1);
    }
}

proof fn lemma_top_err(nodes: Seq<XmlNode>, ts: Seq<usize>, k: int, m: int)
    requires
        0 <= k <= m <= ts.len(),
        top_upto(nodes, ts, k) is Err,
    ensures
        top_upto(nodes, ts, m) == top_upto(nodes, ts, k),
    decreases m - k,
{
    if m > k {
        lemma_top_err(nodes, ts, k, m - 1);
    }
}

/// The uses of job element `j`: the sizes of its inputs and of its other uses.
fn read_uses(nodes: &Vec<XmlNode>, j: usize) -> (r: Result<(Vec<String>, Vec<String>), ParseError>)
    ensures
        ({
            let cs = element_children(nodes@, j);
            let s = uses_upto(nodes@, cs, cs.len() as int);
            &&& r matches Ok((a, b)) ==> s == Ok::<(Seq<Seq<char>>, Seq<Seq<char>>), ParseError>((texts(a@), texts(b@)))
            &&& r matches Err(e) ==> s == Err::<(Seq<Seq<char>>, Seq<Seq<char>>), ParseError>(e)
        }),
{
    let cs = children(nodes, j);
    let mut ins: Vec<String> = Vec::new();
    let mut outs: Vec<String> = Vec::new();
    proof {
        assert(texts(ins@) =~= Seq::<Seq<char>>::empty());
        assert(texts(outs@) =~= Seq::<Seq<char>>::empty());
    }
    let mut k: usize = 0;
    while k < cs.len()
        invariant
            k <= cs@.len(),
            cs@ == element_children(nodes@, j),
            forall|i: int| 0 <= i < cs@.len() ==> #[trigger] cs@[i] < nodes@.len(),
            uses_upto(nodes@, cs@, k as int) == Ok::<(Seq<Seq<char>>, Seq<Seq<char>>), ParseError>((texts(ins@), texts(outs@))),
        decreases cs@.len() - k,
    {
        let c = &nodes[cs[k]];
        if !text_is(&c.tag, "uses") {
            proof { lemma_uses_err(nodes@, cs@, k + 1, cs@.len() as int); }
            return Err(ParseError::UnexpectedTag);
        }
        let link = attribute(c, "link");
        let size = attribute(c, "size");
        match (link, size) {
            (Some(l), Some(sz)) => {
                if text_is(&l, "input") {
                    proof { assert(texts(ins@.push(sz)) =~= texts(ins@).push(sz@)); }
                    ins.push(sz);
                } else {
                    proof { assert(texts(outs@.push(sz)) =~= texts(outs@).push(sz@)); }
                    outs.push(sz);
                }
            },
            _ => {
                proof { lemma_uses_err(nodes@, cs@, k + 1, cs@.len() as int); }
                return Err(ParseError::MissingAttribute);
            },
        }
        k += 1;
    }
    Ok((ins, outs))
}

/// The last job read so far whose id is `id`.
fn find_job(jobs: &Vec<JobRecord>, id: &String) -> (r: Option<usize>)
    ensures
        r is Some <==> lookup(jobs_view(jobs@), id@) is Some,
        r matches Some(i) ==> lookup(jobs_view(jobs@), id@) == Some(i as int) && i < jobs@.len(),
{
    let mut found: Option<usize> = None;
    let mut i: usize = 0;
    while i < jobs.len()
        invariant
            i <= jobs@.len(),
            found is Some <==> lookup_upto(jobs_view(jobs@), id@, i as int) is Some,
            found matches Some(f) ==> lookup_upto(jobs_view(jobs@), id@, i as int) == Some(f as int) && f < i,
        decreases jobs@.len() - i,
    {
        if jobs[i].id.eq(id) {
            found = Some(i);
        }
        i += 1;
    }
    found
}

/// The links made by the parents of child element `c` of job `ci`.
fn read_parents(nodes: &Vec<XmlNode>, jobs: &Vec<JobRecord>, c: usize, ci: usize) -> (r: Result<Vec<Link>, ParseError>)
    ensures
        ({
            let ps = element_children(nodes@, c);
            let s = parents_upto(nodes@, jobs_view(jobs@), ps, ci, ps.len() as int);
            &&& r matches Ok(l) ==> s == Ok::<Seq<Link>, ParseError>(l@)
            &&& r matches Err(e) ==> s == Err::<Seq<Link>, ParseError>(e)
        }),
{
    let ps = children(nodes, c);
    let mut links: Vec<Link> = Vec::new();
    let mut k: usize = 0;
    while k < ps.len()
        invariant
            k <= ps@.len(),
            ps@ == element_children(nodes@, c),
            forall|i: int| 0 <= i < ps@.len() ==> #[trigger] ps@[i] < nodes@.len(),
            parents_upto(nodes@, jobs_view(jobs@), ps@, ci, k as int) == Ok::<Seq<Link>, ParseError>(links@),
        decreases ps@.len() - k,
    {
        let p = &nodes[ps[k]];
        if !text_is(&p.tag, "parent") {
            proof { lemma_parents_err(nodes@, jobs_view(jobs@), ps@, ci, k + 1, ps@.len() as int); }
            return Err(ParseError::UnexpectedTag);
        }
        match attribute(p, "ref") {
            None => {
                proof { lemma_parents_err(nodes@, jobs_view(jobs@), ps@, ci, k + 1, ps@.len() as int); }
                return Err(ParseError::MissingAttribute);
            },
            Some(r) => match find_job(jobs, &r) {
                None => {
                    proof { lemma_parents_err(nodes@, jobs_view(jobs@), ps@, ci, k + 1, ps@.len() as int); }
                    return Err(ParseError::UnknownRef);
                },
                Some(pi) => {
                    links.push(Link { parent: pi, child: ci, input: k });
                },
            },
        }
        k += 1;
    }
    Ok(links)
}

/// The jobs and links of an XML task or topology description.
pub fn read_workflow(nodes: &Vec<XmlNode>) -> (r: Result<(Vec<JobRecord>, Vec<Link>), ParseError>)
    ensures
        r matches Ok((j, l)) ==> workflow_of(nodes@) == Ok::<(Seq<JobView>, Seq<Link>), ParseError>((jobs_view(j@), l@)),
        r matches Err(e) ==> workflow_of(nodes@) == Err::<(Seq<JobView>, Seq<Link>), ParseError>(e),
{
    let roots = children(nodes, 0);
    if roots.len() == 0 {
        return Err(ParseError::NoRoot);
    }
    let ts = children(nodes, roots[0]);
    let mut jobs: Vec<JobRecord> = Vec::new();
    let mut links: Vec<Link> = Vec::new();
    proof {
        assert(jobs_view(jobs@) =~= Seq::<JobView>::empty());
        assert(links@ =~= Seq::<Link>::empty());
    }
    let mut k: usize = 0;
    while k < ts.len()
        invariant
            k <= ts@.len(),
            ts@ == element_children(nodes@, roots@[0]),
            roots@ == element_children(nodes@, 0),
            roots@.len() > 0,
            forall|i: int| 0 <= i < ts@.len() ==> #[trigger] ts@[i] < nodes@.len(),
            top_upto(nodes@, ts@, k as int) == Ok::<(Seq<JobView>, Seq<Link>), ParseError>((jobs_view(jobs@), links@)),
        decreases ts@.len() - k,
    {
        let t = ts[k];
        let n = &nodes[t];
        if text_is(&n.tag, "job") {
            match (attribute(n, "id"), attribute(n, "runtime")) {
                (Some(id), Some(runtime)) => match read_uses(nodes, t) {
                    Ok((inputs, others)) => {
                        let job = JobRecord { id, runtime, inputs, others };
                        proof { assert(jobs_view(jobs@.push(job)) =~= jobs_view(jobs@).push(job_view(job))); }
                        jobs.push(job);
                    },
                    Err(e) => {
                        proof { lemma_top_err(nodes@, ts@, k + 1, ts@.len() as int); }
                        return Err(e);
                    },
                },
                _ => {
                    proof { lemma_top_err(nodes@, ts@, k + 1, ts@.len() as int); }
                    return Err(ParseError::MissingAttribute);
                },
            }
        } else if text_is(&n.tag, "child") {
            let r = match attribute(n, "ref") {
                Some(r) => r,
                None => {
                    proof { lemma_top_err(nodes@, ts@, k + 1, ts@.len() as int); }
                    return Err(ParseError::MissingAttribute);
                },
            };
            let ci = match find_job(&jobs, &r) {
                Some(ci) => ci,
                None => {
                    proof { lemma_top_err(nodes@, ts@, k + 1, ts@.len() as int); }
                    return Err(ParseError::UnknownRef);
                },
            };
            let ps = children(nodes, t);
            if ps.len() != jobs[ci].inputs.len() {
                proof { lemma_top_err(nodes@, ts@, k + 1, ts@.len() as int); }
                return Err(ParseError::CountMismatch);
            }
            match read_parents(nodes, &jobs, t, ci) {
                Ok(more) => {
                    proof { assert(links@ + more@ == (links@ + more@)); }
                    links.append(&mut more.clone());
                },
                Err(e) => {
                    proof { lemma_top_err(nodes@, ts@, k + 1, ts@.len() as int); }
                    return Err(e);
                },
            }
        } else {
            proof { lemma_top_err(nodes@, ts@, k + 1, ts@.len() as int); }
            return Err(ParseError::UnexpectedTag);
        }
        k += 1;
    }
    Ok((jobs, links))
}

/// Every link names jobs that exist and an input that its child has.
pub open spec fn links_valid(jobs: Seq<JobView>, links: Seq<Link>) -> bool {
    forall|i: int|
        0 <= i < links.len() ==> (#[trigger] links[i]).parent < jobs.len() && links[i].child < jobs.len()
            && links[i].input < jobs[links[i].child as int].inputs.len()
}

proof fn lemma_lookup_bound(jobs: Seq<JobView>, id: Seq<char>, k: int)
    ensures
        lookup_upto(jobs, id, k) matches Some(i) ==> 0 <= i < k && i < jobs.len(),
    decreases k,
{
    if k > 0 && k <= jobs.len() {
        lemma_lookup_bound(jobs, id, k - 1);
    }
}

proof fn lemma_parents_valid(nodes: Seq<XmlNode>, jobs: Seq<JobView>, ps: Seq<usize>, ci: usize, k: int)
    requires
        ci < jobs.len(),
        ps.len() == jobs[ci as int].inputs.len(),
        0 <= k <= ps.len(),
    ensures
        parents_upto(nodes, jobs, ps, ci, k) matches Ok(l) ==> links_valid(jobs, l) && l.len() == k,
    decreases k,
{
    if k > 0 {
        lemma_parents_valid(nodes, jobs, ps, ci, k - 1);
        let p = nodes[ps[k - 1] as int];
        if let Some(r) = attribute_of(p, "ref"@) {
            lemma_lookup_bound(jobs, r, jobs.len() as int);
        }
        if let Ok(l) = parents_upto(nodes, jobs, ps, ci, k) {
            let prev = parents_upto(nodes, jobs, ps, ci, k - 1)->Ok_0;
            assert forall|i: int| 0 <= i < l.len() implies (#[trigger] l[i]).parent < jobs.len() && l[i].child
                < jobs.len() && l[i].input < jobs[l[i].child as int].inputs.len() by {
                if i < k - 1 {
                    assert(l[i] == prev[i]);
                }
            }
        }
    }
}

proof fn lemma_top_valid(nodes: Seq<XmlNode>, ts: Seq<usize>, k: int)
    requires
        0 <= k <= ts.len(),
        ts.len() <= usize::MAX,
    ensures
        top_upto(nodes, ts, k) matches Ok((jobs, links)) ==> links_valid(jobs, links) && jobs.len() <= k,
    decreases k,
{
    if k > 0 {
        lemma_top_valid(nodes, ts, k - 1);
        if let Ok((jobs, links)) = top_upto(nodes, ts, k - 1) {
            let t = ts[k - 1];
            let n = nodes[t as int];
            if let Ok((j2, l2)) = step(nodes, jobs, links, t) {
                if n.tag@ == "job"@ {
                    assert forall|i: int| 0 <= i < l2.len() implies (#[trigger] l2[i]).parent < j2.len() && l2[i].child
                        < j2.len() && l2[i].input < j2[l2[i].child as int].inputs.len() by {
                        assert(j2[l2[i].child as int] == jobs[l2[i].child as int]);
                    }
                } else {
                    let r = attribute_of(n, "ref"@)->Some_0;
                    lemma_lookup_bound(jobs, r, jobs.len() as int);
                    let ci = lookup(jobs, r)->Some_0;
                    let ps = element_children(nodes, t);
                    lemma_parents_valid(nodes, jobs, ps, ci as usize, ps.len() as int);
                    let more = parents_upto(nodes, jobs, ps, ci as usize, ps.len() as int)->Ok_0;
                    assert forall|i: int| 0 <= i < l2.len() implies (#[trigger] l2[i]).parent < j2.len() && l2[i].child
                        < j2.len() && l2[i].input < j2[l2[i].child as int].inputs.len() by {
                        if i < links.len() {
                            assert(l2[i] == links[i]);
                        } else {
                            assert(l2[i] == more[i - links.len()]);
                        }
                    }
                }
            }
        }
    }
}

/// The links of any document that reads without error are valid.
pub proof fn lemma_workflow_links_valid(nodes: Seq<XmlNode>)
    requires
        nodes.len() <= usize::MAX,
    ensures
        workflow_of(nodes) matches Ok((jobs, links)) ==> links_valid(jobs, links),
{
    let roots = element_children(nodes, 0);
    if roots.len() > 0 {
        let ts = element_children(nodes, roots[0]);
        crate::xml::lemma_children_count(nodes, roots[0], nodes.len() as int);
        lemma_top_valid(nodes, ts, ts.len() as int);
    }
}

/// Every size text reads as a `u64`.
pub open spec fn sizes_readable(s: Seq<Seq<char>>) -> bool {
    forall|i: int| 0 <= i < s.len() ==> (#[trigger] u64_text(s[i])) is Some
}

/// The sum of the sizes that the texts read as.
pub open spec fn size_sum(s: Seq<Seq<char>>) -> int
    decreases s.len(),
{
    if s.len() == 0 {
        0
    } else {
        size_sum(s.drop_last()) + u64_text(s.last())->Some_0
    }
}

/// A job of a task description has readable sizes whose input sum fits in 64 bits.
pub open spec fn task_job_ok(j: JobView) -> bool {
    sizes_readable(j.inputs) && sizes_readable(j.others) && size_sum(j.inputs) <= u64::MAX
}

/// A task as its description gives it: the runtime text, read by the caller,
/// and the total size of its inputs.
#[derive(Clone, Debug)]
pub struct TaskRecord {
    pub runtime: String,
    pub data_size: u64,
}

/// A task description: the tasks in document order and the dependencies,
/// each carrying the size of the input it feeds.
#[derive(Clone, Debug)]
pub struct TaskDocument {
    pub tasks: Vec<TaskRecord>,
    pub dependencies: Vec<Dependency>,
}

/// Reads the sizes in `s`, or `None` when one does not read as a `u64`.
fn read_sizes(s: &Vec<String>) -> (r: Option<Vec<u64>>)
    ensures
        r is Some <==> sizes_readable(texts(s@)),
        r matches Some(v) ==> v@.len() == s@.len() && forall|i: int| 0 <= i < v@.len() ==> Some(#[trigger] v@[i]) == u64_text(s@[i]@),
{
    let mut v: Vec<u64> = Vec::new();
    let mut i: usize = 0;
    while i < s.len()
        invariant
            i <= s@.len(),
            v@.len() == i,
            forall|k: int| 0 <= k < i ==> Some(#[trigger] v@[k]) == u64_text(s@[k]@),
        decreases s@.len() - i,
    {
        match parse_u64(&s[i]) {
            Some(x) => v.push(x),
            None => {
                assert(texts(s@)[i as int] == s@[i as int]@);
                return None;
            },
        }
        i += 1;
    }
    proof {
        assert forall|k: int| 0 <= k < texts(s@).len() implies (#[trigger] u64_text(texts(s@)[k])) is Some by {
            assert(texts(s@)[k] == s@[k]@);
            assert(Some(v@[k]) == u64_text(s@[k]@));
        }
    }
    Some(v)
}

/// The sum of `v`, or `None` when it overflows.
fn checked_sum(v: &Vec<u64>, Ghost(s): Ghost<Seq<Seq<char>>>) -> (r: Option<u64>)
    requires
        v@.len() == s.len(),
        forall|i: int| 0 <= i < v@.len() ==> Some(#[trigger] v@[i]) == u64_text(s[i]),
    ensures
        r is Some <==> size_sum(s) <= u64::MAX,
        r matches Some(x) ==> x == size_sum(s),
{
    let mut total: u64 = 0;
    let mut i: usize = 0;
    proof { lemma_size_sum_prefix_monotone(s, 0); }
    while i < v.len()
        invariant
            i <= v@.len(),
            v@.len() == s.len(),
            forall|k: int| 0 <= k < v@.len() ==> Some(#[trigger] v@[k]) == u64_text(s[k]),
            total == size_sum(s.take(i as int)),
        decreases v@.len() - i,
    {
        assert(s.take(i as int + 1).drop_last() =~= s.take(i as int));
        assert(u64_text(s[i as int]) == Some(v@[i as int]));
        match total.checked_add(v[i]) {
            Some(t) => total = t,
            None => {
                proof { lemma_size_sum_prefix_monotone(s, i as int + 1); }
                return None;
            },
        }
        i += 1;
    }
    assert(s.take(i as int) =~= s);
    Some(total)
}

/// Sums of sizes only grow as more texts are added.
proof fn lemma_size_sum_prefix_monotone(s: Seq<Seq<char>>, k: int)
    requires
        0 <= k <= s.len(),
    ensures
        size_sum(s.take(k)) <= size_sum(s),
        0 <= size_sum(s.take(k)),
    decreases s.len() - k,
{
    if k < s.len() {
        lemma_size_sum_prefix_monotone(s, k + 1);
        assert(s.take(k + 1).drop_last() =~= s.take(k));
    } else {
        assert(s.take(k) =~= s);
    }
    lemma_size_sum_nonneg(s.take(k));
}

proof fn lemma_size_sum_nonneg(s: Seq<Seq<char>>)
    ensures
        0 <= size_sum(s),
    decreases s.len(),
{
    if s.len() > 0 {
        lemma_size_sum_nonneg(s.drop_last());
    }
}

/// Reads a task description: each job becomes a task whose data size is
/// the sum of its input sizes, and the `i`-th parent of a child feeds the
/// child's `i`-th input, carrying that input's size. Fails as
/// `read_workflow` does, and else with `BadNumber` when a size does not
/// read as a `u64` or a task's input sizes overflow when summed.
pub fn task_document(nodes: &Vec<XmlNode>) -> (r: Result<TaskDocument, ParseError>)
    ensures
        workflow_of(nodes@) matches Err(e) ==> r is Err && r->Err_0 == e,
        workflow_of(nodes@) matches Ok((jobs, links)) ==> {
            &&& r is Ok <==> forall|j: int| 0 <= j < jobs.len() ==> task_job_ok(#[trigger] jobs[j])
            &&& r is Err ==> r->Err_0 == ParseError::BadNumber
            &&& r matches Ok(d) ==> {
                &&& d.tasks@.len() == jobs.len()
                &&& forall|j: int|
                    0 <= j < jobs.len() ==> (#[trigger] d.tasks@[j]).runtime@ == jobs[j].runtime
                        && d.tasks@[j].data_size == size_sum(jobs[j].inputs)
                &&& d.dependencies@.len() == links.len()
                &&& forall|i: int|
                    0 <= i < links.len() ==> #[trigger] d.dependencies@[i] == (Dependency {
                        source: links[i].parent,
                        target: links[i].child,
                        data_size: u64_text(jobs[links[i].child as int].inputs[links[i].input as int])->Some_0,
                    })
            }
        },
{
    let (jobs, links) = match read_workflow(nodes) {
        Ok(w) => w,
        Err(e) => return Err(e),
    };
    let ghost jv = jobs_view(jobs@);
    let node_count = nodes.len();
    proof {
        assert(nodes@.len() == node_count);
        lemma_workflow_links_valid(nodes@);
    }
    let mut tasks: Vec<TaskRecord> = Vec::new();
    let mut sizes: Vec<Vec<u64>> = Vec::new();
    let mut j: usize = 0;
    while j < jobs.len()
        invariant
            j <= jobs@.len(),
            jv == jobs_view(jobs@),
            tasks@.len() == j,
            sizes@.len() == j,
            workflow_of(nodes@) == Ok::<(Seq<JobView>, Seq<Link>), ParseError>((jv, links@)),
            forall|k: int| 0 <= k < j ==> task_job_ok(#[trigger] jv[k]),
            forall|k: int|
                0 <= k < j ==> (#[trigger] tasks@[k]).runtime@ == jv[k].runtime && tasks@[k].data_size
                    == size_sum(jv[k].inputs),
            forall|k: int|
                0 <= k < j ==> (#[trigger] sizes@[k])@.len() == jv[k].inputs.len() && forall|m: int|
                    0 <= m < sizes@[k]@.len() ==> Some(#[trigger] sizes@[k]@[m]) == u64_text(jv[k].inputs[m]),
        decreases jobs@.len() - j,
    {
        let job = &jobs[j];
        assert(jv[j as int] == job_view(jobs@[j as int]));
        assert(jv[j as int].inputs == texts(job.inputs@));
        assert(jv[j as int].others == texts(job.others@));
        let ins = match read_sizes(&job.inputs) {
            Some(v) => v,
            None => {
                assert(!sizes_readable(jv[j as int].inputs));
                assert(!task_job_ok(jv[j as int]));
                return Err(ParseError::BadNumber);
            },
        };
        if read_sizes(&job.others).is_none() {
            assert(!task_job_ok(jv[j as int]));
            return Err(ParseError::BadNumber);
        }
        proof {
            assert forall|m: int| 0 <= m < ins@.len() implies Some(#[trigger] ins@[m]) == u64_text(texts(job.inputs@)[m]) by {
                assert(texts(job.inputs@)[m] == job.inputs@[m]@);
            }
        }
        let total = match checked_sum(&ins, Ghost(texts(job.inputs@))) {
            Some(t) => t,
            None => {
                assert(!task_job_ok(jv[j as int]));
                return Err(ParseError::BadNumber);
            },
        };
        tasks.push(TaskRecord { runtime: job.runtime.clone(), data_size: total });
        sizes.push(ins);
        j += 1;
    }
    let mut dependencies: Vec<Dependency> = Vec::new();
    let mut i: usize = 0;
    while i < links.len()
        invariant
            i <= links@.len(),
            jv == jobs_view(jobs@),
            links_valid(jv, links@),
            sizes@.len() == jv.len(),
            forall|k: int|
                0 <= k < jv.len() ==> (#[trigger] sizes@[k])@.len() == jv[k].inputs.len() && forall|m: int|
                    0 <= m < sizes@[k]@.len() ==> Some(#[trigger] sizes@[k]@[m]) == u64_text(jv[k].inputs[m]),
            dependencies@.len() == i,
            forall|k: int|
                0 <= k < i ==> #[trigger] dependencies@[k] == (Dependency {
                    source: links@[k].parent,
                    target: links@[k].child,
                    data_size: u64_text(jv[links@[k].child as int].inputs[links@[k].input as int])->Some_0,
                }),
        decreases links@.len() - i,
    {
        let l = links[i];
        assert(links_valid(jv, links@));
        assert(l == links@[i as int]);
        let c = &sizes[l.child];
        assert(Some(c@[l.input as int]) == u64_text(jv[l.child as int].inputs[l.input as int]));
        dependencies.push(Dependency { source: l.parent, target: l.child, data_size: c[l.input] });
        i += 1;
    }
    Ok(TaskDocument { tasks, dependencies })
}

/// A link of a topology description, with the size text of the input it feeds.
#[derive(Clone, Debug)]
pub struct TopologyLink {
    pub parent: usize,
    pub child: usize,
    pub size: String,
}

/// A topology description: each device's runtime text, in document order,
/// and the links between devices.
#[derive(Clone, Debug)]
pub struct TopologyDocument {
    pub devices: Vec<String>,
    pub links: Vec<TopologyLink>,
}

/// Reads a topology description: each job becomes a device, and the `i`-th
/// parent of a child is linked to it with the size text of the child's
/// `i`-th input. Fails exactly as `read_workflow` does.
pub fn topology_document(nodes: &Vec<XmlNode>) -> (r: Result<TopologyDocument, ParseError>)
    ensures
        workflow_of(nodes@) matches Err(e) ==> r is Err && r->Err_0 == e,
        workflow_of(nodes@) matches Ok((jobs, links)) ==> r matches Ok(d) && {
            &&& d.devices@.len() == jobs.len()
            &&& forall|j: int| 0 <= j < jobs.len() ==> (#[trigger] d.devices@[j])@ == jobs[j].runtime
            &&& d.links@.len() == links.len()
            &&& forall|i: int|
                0 <= i < links.len() ==> (#[trigger] d.links@[i]).parent == links[i].parent && d.links@[i].child
                    == links[i].child && d.links@[i].size@ == jobs[links[i].child as int].inputs[links[i].input as int]
        },
{
    let (jobs, links) = match read_workflow(nodes) {
        Ok(w) => w,
        Err(e) => return Err(e),
    };
    let ghost jv = jobs_view(jobs@);
    let node_count = nodes.len();
    proof {
        assert(nodes@.len() == node_count);
        lemma_workflow_links_valid(nodes@);
    }
    let mut devices: Vec<String> = Vec::new();
    let mut j: usize = 0;
    while j < jobs.len()
        invariant
            j <= jobs@.len(),
            jv == jobs_view(jobs@),
            devices@.len() == j,
            forall|k: int| 0 <= k < j ==> (#[trigger] devices@[k])@ == jv[k].runtime,
        decreases jobs@.len() - j,
    {
        assert(jv[j as int] == job_view(jobs@[j as int]));
        devices.push(jobs[j].runtime.clone());
        j += 1;
    }
    let mut out: Vec<TopologyLink> = Vec::new();
    let mut i: usize = 0;
    while i < links.len()
        invariant
            i <= links@.len(),
            jv == jobs_view(jobs@),
            links_valid(jv, links@),
            out@.len() == i,
            forall|k: int|
                0 <= k < i ==> (#[trigger] out@[k]).parent == links@[k].parent && out@[k].child == links@[k].child
                    && out@[k].size@ == jv[links@[k].child as int].inputs[links@[k].input as int],
        decreases links@.len() - i,
    {
        let l = links[i];
        assert(l == links@[i as int]);
        let job = &jobs[l.child];
        assert(jv[l.child as int] == job_view(jobs@[l.child as int]));
        assert(texts(job.inputs@)[l.input as int] == job.inputs@[l.input as int]@);
        out.push(TopologyLink { parent: l.parent, child: l.child, size: job.inputs[l.input].clone() });
        i += 1;
    }
    Ok(TopologyDocument { devices, links: out })
}

} // verus!

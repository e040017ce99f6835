//! Header policies: per-route `set`/`del` actions, merged bottom-up from
//! server level through service level to route level.
use vstd::prelude::*;
use crate::strmap::{StrMap, map_of};
use crate::toml_model::{HeaderAction, HeaderType, Headers};

verus! {

/// The string-contents mapping of a map whose values are owned strings.
pub open spec fn deep(m: Map<Seq<char>, String>) -> Map<Seq<char>, Seq<char>> {
    Map::new(|k: Seq<char>| m.dom().contains(k), |k: Seq<char>| m[k]@)
}

/// The string contents of a sequence of owned strings.
pub open spec fn deep_seq(s: Seq<String>) -> Seq<Seq<char>> {
    s.map_values(|x: String| x@)
}

pub proof fn lemma_deep_insert(m: Map<Seq<char>, String>, k: Seq<char>, v: String)
    ensures
        deep(m.insert(k, v)) == deep(m).insert(k, v@),
{
    assert(deep(m.insert(k, v)) =~= deep(m).insert(k, v@));
}

pub proof fn lemma_deep_union(a: Map<Seq<char>, String>, b: Map<Seq<char>, String>)
    ensures
        deep(a.union_prefer_right(b)) == deep(a).union_prefer_right(deep(b)),
{
    assert(deep(a.union_prefer_right(b)) =~= deep(a).union_prefer_right(deep(b)));
}

#[derive(PartialEq, Debug)]
pub struct ConfigHeadersActions {
    pub set: Option<StrMap<String>>,
    pub del: Option<Vec<String>>,
}

#[derive(PartialEq, Debug)]
pub struct ConfigHeaders {
    pub request: Option<ConfigHeadersActions>,
    pub response: Option<ConfigHeadersActions>,
}

impl ConfigHeadersActions {
    pub open spec fn wf(&self) -> bool {
        match self.set {
            Option::Some(m) => m.wf(),
            Option::None => true,
        }
    }
}

impl ConfigHeaders {
    pub open spec fn wf(&self) -> bool {
        &&& match self.request {
            Option::Some(a) => a.wf(),
            Option::None => true,
        }
        &&& match self.response {
            Option::Some(a) => a.wf(),
            Option::None => true,
        }
    }
}

impl Default for ConfigHeadersActions {
    fn default() -> (r: Self)
        ensures
            r.set is None,
            r.del is None,
    {
        ConfigHeadersActions { set: None, del: None }
    }
}

impl Default for ConfigHeaders {
    fn default() -> (r: Self)
        ensures
            r.request is None,
            r.response is None,
    {
        ConfigHeaders { request: None, response: None }
    }
}

/// The `set` map of an optional action, by string contents.
pub open spec fn opt_set_deep(o: Option<StrMap<String>>) -> Option<Map<Seq<char>, Seq<char>>> {
    match o {
        Option::Some(m) => Option::Some(deep(m@)),
        Option::None => Option::None,
    }
}

/// The `del` list of an optional action, by string contents.
pub open spec fn opt_del_deep(o: Option<Vec<String>>) -> Option<Seq<Seq<char>>> {
    match o {
        Option::Some(v) => Option::Some(deep_seq(v@)),
        Option::None => Option::None,
    }
}

/// A fresh copy of a string map, with the same contents.
pub fn copy_str_map(m: &StrMap<String>) -> (r: StrMap<String>)
    ensures
        r.wf(),
        deep(r@) == deep(m@),
{
    let entries = m.entries();
    let n = entries.len();
    let mut out = StrMap::<String>::new();
    let mut i: usize = 0;
    proof {
        assert(deep(out@) =~= deep(map_of(m.entries_seq().take(0))));
    }
    while i < n
        invariant
            i <= n,
            n == m.entries_seq().len(),
            entries@ == m.entries_seq(),
            out.wf(),
            deep(out@) == deep(map_of(m.entries_seq().take(i as int))),
        decreases n - i,
    {
        let k = String::from_str(entries[i].0.as_str());
        let v = String::from_str(entries[i].1.as_str());
        let ghost prev = out@;
        out.insert(k, v);
        proof {
            let e = m.entries_seq();
            assert(e.take(i + 1).drop_last() =~= e.take(i as int));
            lemma_deep_insert(prev, k@, v);
            lemma_deep_insert(map_of(e.take(i as int)), e[i as int].0@, e[i as int].1);
            assert(deep(out@) =~= deep(map_of(e.take(i + 1))));
        }
        i += 1;
    }
    proof {
        assert(m.entries_seq().take(n as int) =~= m.entries_seq());
    }
    out
}

/// A fresh copy of a string list, with the same contents.
pub fn copy_str_vec(v: &Vec<String>) -> (r: Vec<String>)
    ensures
        deep_seq(r@) == deep_seq(v@),
{
    let n = v.len();
    let mut out: Vec<String> = Vec::new();
    let mut i: usize = 0;
    while i < n
        invariant
            i <= n,
            n == v@.len(),
            out@.len() == i,
            forall|j: int| 0 <= j < i ==> out@[j]@ == v@[j]@,
        decreases n - i,
    {
        out.push(String::from_str(v[i].as_str()));
        i += 1;
    }
    proof {
        assert(deep_seq(out@) =~= deep_seq(v@));
    }
    out
}

/// `c` carries the same actions as `a`, contents for contents.
pub open spec fn copied_actions(a: HeaderAction, c: ConfigHeadersActions) -> bool {
    &&& c.wf()
    &&& opt_set_deep(c.set) == opt_set_deep(a.set)
    &&& opt_del_deep(c.del) == opt_del_deep(a.del)
    &&& (a.set is None <==> c.set is None)
    &&& (a.del is None <==> c.del is None)
}

/// Copies a declarative header action into the compiled form.
pub fn process_headers_set_del(action: &HeaderAction) -> (r: ConfigHeadersActions)
    requires
        action.wf(),
    ensures
        copied_actions(*action, r),
{
    let set = match &action.set {
        Option::Some(m) => Option::Some(copy_str_map(m)),
        Option::None => Option::None,
    };
    let del = match &action.del {
        Option::Some(v) => Option::Some(copy_str_vec(v)),
        Option::None => Option::None,
    };
    ConfigHeadersActions { set, del }
}

/// A collection that can absorb another of its kind.
pub trait Mergeable: Sized {
    spec fn m_wf(&self) -> bool;

    /// What holds of `post` when `other` was merged into `pre`.
    spec fn merged(pre: Self, other: Self, post: Self) -> bool;

    fn merge_from(&mut self, other: Self)
        requires
            old(self).m_wf(),
            other.m_wf(),
        ensures
            final(self).m_wf(),
            Self::merged(*old(self), other, *final(self)),
    ;
}

impl Mergeable for StrMap<String> {
    open spec fn m_wf(&self) -> bool {
        self.wf()
    }

    /// Union of the mappings; on a shared key the other side wins.
    open spec fn merged(pre: Self, other: Self, post: Self) -> bool {
        post@ == pre@.union_prefer_right(other@)
    }

    fn merge_from(&mut self, other: Self) {
        let mut rest = other;
        proof {
            assert(old(self)@.union_prefer_right(map_of(rest.pairs@)) =~= old(
                self,
            )@.union_prefer_right(rest@));
        }
        loop
            invariant
                self.wf(),
                crate::strmap::unique_keys(rest.pairs@),
                self@.union_prefer_right(map_of(rest.pairs@)) == old(self)@.union_prefer_right(
                    other@,
                ),
            decreases rest.pairs@.len(),
        {
            let ghost rem = rest.pairs@;
            match rest.pairs.pop() {
                Option::Some((k, v)) => {
                    let ghost mid = self@;
                    self.insert(k, v);
                    proof {
                        assert(rem.drop_last() =~= rest.pairs@);
                        if map_of(rest.pairs@).contains_key(k@) {
                            crate::strmap::lemma_map_of_dom(rest.pairs@, k@);
                            assert(false);
                        }
                        assert(self@.union_prefer_right(map_of(rest.pairs@))
                            =~= mid.union_prefer_right(map_of(rem)));
                    }
                },
                Option::None => {
                    proof {
                        assert(map_of(rest.pairs@) =~= Map::<Seq<char>, String>::empty());
                        assert(self@.union_prefer_right(Map::<Seq<char>, String>::empty())
                            =~= self@);
                    }
                    return ;
                },
            }
        }
    }
}

impl Mergeable for Vec<String> {
    open spec fn m_wf(&self) -> bool {
        true
    }

    /// Concatenation, the other side appended.
    open spec fn merged(pre: Self, other: Self, post: Self) -> bool {
        post@ == pre@ + other@
    }

    fn merge_from(&mut self, other: Self) {
        let mut rest = other;
        self.append(&mut rest);
    }
}

/// Merges `source` into `target`: both present merge, an absent target
/// takes the source, an absent source changes nothing.
pub fn merge_option_collections<T: Mergeable>(target: &mut Option<T>, source: Option<T>)
    requires
        match *old(target) {
            Option::Some(t) => t.m_wf(),
            Option::None => true,
        },
        match source {
            Option::Some(s) => s.m_wf(),
            Option::None => true,
        },
    ensures
        match *final(target) {
            Option::Some(t) => t.m_wf(),
            Option::None => true,
        },
        source is None ==> *final(target) == *old(target),
        (*old(target)) is None ==> *final(target) == source,
        ((*old(target)) is Some && source is Some) ==> ((*final(target)) matches Option::Some(t)
            && T::merged(old(target).unwrap(), source.unwrap(), t)),
{
    match source {
        Option::Some(s) => {
            match target.take() {
                Option::Some(mut t) => {
                    t.merge_from(s);
                    *target = Option::Some(t);
                },
                Option::None => {
                    *target = Option::Some(s);
                },
            }
        },
        Option::None => {},
    }
}

/// How an optional `set` map reads after a merge.
pub open spec fn merged_set(
    pre: Option<Map<Seq<char>, Seq<char>>>,
    src: Option<Map<Seq<char>, Seq<char>>>,
) -> Option<Map<Seq<char>, Seq<char>>> {
    match (pre, src) {
        (Option::Some(t), Option::Some(s)) => Option::Some(t.union_prefer_right(s)),
        (Option::None, s) => s,
        (t, Option::None) => t,
    }
}

/// How an optional `del` list reads after a merge.
pub open spec fn merged_del(pre: Option<Seq<Seq<char>>>, src: Option<Seq<Seq<char>>>) -> Option<
    Seq<Seq<char>>,
> {
    match (pre, src) {
        (Option::Some(t), Option::Some(s)) => Option::Some(t + s),
        (Option::None, s) => s,
        (t, Option::None) => t,
    }
}

/// The empty compiled action, the starting point when no policy was set.
pub open spec fn default_actions() -> ConfigHeadersActions {
    ConfigHeadersActions { set: Option::None, del: Option::None }
}

/// What holds of the policy `post` after the declarative action `ha` was
/// merged into the policy `pre`. A `set` map unions (the action wins on a
/// shared name), a `del` list concatenates, and a side the action does not
/// touch keeps its exact prior value.
pub open spec fn merge_rel(
    pre: Option<ConfigHeadersActions>,
    ha: HeaderAction,
    post: Option<ConfigHeadersActions>,
) -> bool {
    post matches Option::Some(t) && {
        let p = match pre {
            Option::Some(p) => p,
            Option::None => default_actions(),
        };
        &&& t.wf()
        &&& opt_set_deep(t.set) == merged_set(opt_set_deep(p.set), opt_set_deep(ha.set))
        &&& opt_del_deep(t.del) == merged_del(opt_del_deep(p.del), opt_del_deep(ha.del))
        &&& (ha.set is None ==> t.set == p.set)
        &&& (ha.del is None ==> t.del == p.del)
    }
}

/// Merges a declarative header action into an optional compiled policy.
pub fn merge_headers_actions(ha: &HeaderAction, cha: &mut Option<ConfigHeadersActions>)
    requires
        ha.wf(),
        match *old(cha) {
            Option::Some(a) => a.wf(),
            Option::None => true,
        },
    ensures
        merge_rel(*old(cha), *ha, *final(cha)),
{
    let actions = process_headers_set_del(ha);
    let mut t = match cha.take() {
        Option::Some(t) => t,
        Option::None => ConfigHeadersActions::default(),
    };
    let ghost p = t;
    proof {
        if (*old(cha)) is None {
            assert(p == default_actions());
        }
    }
    merge_option_collections(&mut t.set, actions.set);
    merge_option_collections(&mut t.del, actions.del);
    proof {
        if p.set is Some && actions.set is Some {
            lemma_deep_union(p.set.unwrap()@, actions.set.unwrap()@);
        }
        if p.del is Some && actions.del is Some {
            assert(deep_seq(p.del.unwrap()@ + actions.del.unwrap()@) =~= deep_seq(
                p.del.unwrap()@,
            ) + deep_seq(actions.del.unwrap()@));
        }
    }
    *cha = Option::Some(t);
}

/// Merging an empty header action into a present policy is the identity.
pub proof fn lemma_merge_empty_identity(
    ha: HeaderAction,
    pre: ConfigHeadersActions,
    post: Option<ConfigHeadersActions>,
)
    requires
        ha.set is None,
        ha.del is None,
        merge_rel(Option::Some(pre), ha, post),
    ensures
        post == Option::Some(pre),
{
}

/// Merging an empty header action into an absent policy yields the empty
/// policy, which acts as no policy at all.
pub proof fn lemma_merge_empty_absent(ha: HeaderAction, post: Option<ConfigHeadersActions>)
    requires
        ha.set is None,
        ha.del is None,
        merge_rel(Option::None, ha, post),
    ensures
        post matches Option::Some(t) && t.set is None && t.del is None,
{
}



/// A fresh copy of a compiled action, with the same contents.
pub fn copy_actions(a: &ConfigHeadersActions) -> (r: ConfigHeadersActions)
    requires
        a.wf(),
    ensures
        r.wf(),
        opt_set_deep(r.set) == opt_set_deep(a.set),
        opt_del_deep(r.del) == opt_del_deep(a.del),
        a.set is None <==> r.set is None,
        a.del is None <==> r.del is None,
{
    let set = match &a.set {
        Option::Some(m) => Option::Some(copy_str_map(m)),
        Option::None => Option::None,
    };
    let del = match &a.del {
        Option::Some(v) => Option::Some(copy_str_vec(v)),
        Option::None => Option::None,
    };
    ConfigHeadersActions { set, del }
}

/// Two optional actions with the same contents.
pub open spec fn actions_equiv(
    a: Option<ConfigHeadersActions>,
    b: Option<ConfigHeadersActions>,
) -> bool {
    match (a, b) {
        (Option::Some(x), Option::Some(y)) => opt_set_deep(x.set) == opt_set_deep(y.set)
            && opt_del_deep(x.del) == opt_del_deep(y.del),
        (Option::None, Option::None) => true,
        _ => false,
    }
}

/// Two policies with the same contents on both sides.
pub open spec fn headers_equiv(a: ConfigHeaders, b: ConfigHeaders) -> bool {
    actions_equiv(a.request, b.request) && actions_equiv(a.response, b.response)
}

/// A fresh copy of a compiled policy, with the same contents.
pub fn copy_config_headers(h: &ConfigHeaders) -> (r: ConfigHeaders)
    requires
        h.wf(),
    ensures
        r.wf(),
        headers_equiv(r, *h),
        h.request is None <==> r.request is None,
        h.response is None <==> r.response is None,
{
    let request = match &h.request {
        Option::Some(a) => Option::Some(copy_actions(a)),
        Option::None => Option::None,
    };
    let response = match &h.response {
        Option::Some(a) => Option::Some(copy_actions(a)),
        Option::None => Option::None,
    };
    ConfigHeaders { request, response }
}

/// `m` after removing each name in `names`, in order.
pub open spec fn del_all(m: Map<Seq<char>, Seq<char>>, names: Seq<Seq<char>>) -> Map<
    Seq<char>,
    Seq<char>,
>
    decreases names.len(),
{
    if names.len() == 0 {
        m
    } else {
        del_all(m, names.drop_last()).remove(names.last())
    }
}

pub proof fn lemma_deep_remove(m: Map<Seq<char>, String>, k: Seq<char>)
    ensures
        deep(m.remove(k)) == deep(m).remove(k),
{
    assert(deep(m.remove(k)) =~= deep(m).remove(k));
}

/// The header table after the policy: names in `set` written (overwriting),
/// then names in `del` removed.
pub open spec fn applied_actions(
    m: Map<Seq<char>, Seq<char>>,
    actions: ConfigHeadersActions,
) -> Map<Seq<char>, Seq<char>> {
    del_all(
        match actions.set {
            Option::Some(s) => m.union_prefer_right(deep(s@)),
            Option::None => m,
        },
        match actions.del {
            Option::Some(d) => deep_seq(d@),
            Option::None => Seq::empty(),
        },
    )
}

/// Applies a compiled header policy to a header table: `set` first,
/// `del` after.
pub fn custom_headers(headers: &mut StrMap<String>, actions: &ConfigHeadersActions)
    requires
        old(headers).wf(),
        actions.wf(),
    ensures
        final(headers).wf(),
        deep(final(headers)@) == applied_actions(deep(old(headers)@), *actions),
{
    let ghost base = deep(old(headers)@);
    match &actions.set {
        Option::Some(h) => {
            let entries = h.entries();
            let n = entries.len();
            let mut i: usize = 0;
            proof {
                assert(base.union_prefer_right(deep(map_of(h.entries_seq().take(0)))) =~= base);
            }
            while i < n
                invariant
                    i <= n,
                    n == h.entries_seq().len(),
                    entries@ == h.entries_seq(),
                    headers.wf(),
                    deep(headers@) == base.union_prefer_right(
                        deep(map_of(h.entries_seq().take(i as int))),
                    ),
                decreases n - i,
            {
                let k = String::from_str(entries[i].0.as_str());
                let v = String::from_str(entries[i].1.as_str());
                let ghost prev = headers@;
                headers.insert(k, v);
                proof {
                    let e = h.entries_seq();
                    assert(e.take(i + 1).drop_last() =~= e.take(i as int));
                    lemma_deep_insert(prev, k@, v);
                    lemma_deep_insert(map_of(e.take(i as int)), e[i as int].0@, e[i as int].1);
                    assert(deep(headers@) =~= base.union_prefer_right(
                        deep(map_of(e.take(i + 1))),
                    ));
                }
                i += 1;
            }
            proof {
                assert(h.entries_seq().take(n as int) =~= h.entries_seq());
            }
        },
        Option::None => {},
    }
    let ghost mid = deep(headers@);
    match &actions.del {
        Option::Some(d) => {
            let n = d.len();
            let mut i: usize = 0;
            while i < n
                invariant
                    i <= n,
                    n == d@.len(),
                    headers.wf(),
                    deep(headers@) == del_all(mid, deep_seq(d@).take(i as int)),
                decreases n - i,
            {
                let ghost prev = headers@;
                let _ = headers.remove_entry(d[i].as_str());
                proof {
                    let names = deep_seq(d@);
                    assert(names.take(i + 1).drop_last() =~= names.take(i as int));
                    lemma_deep_remove(prev, names[i as int]);
                }
                i += 1;
            }
            proof {
                assert(deep_seq(d@).take(n as int) =~= deep_seq(d@));
            }
        },
        Option::None => {
            proof {
                assert(del_all(mid, Seq::<Seq<char>>::empty()) == mid);
            }
        },
    }
}

/// Applies a declarative request/response header pair onto a compiled
/// policy, one side at a time.
pub fn apply_header_actions(header_type: Option<&HeaderType>, config_headers: &mut ConfigHeaders)
    requires
        old(config_headers).wf(),
        match header_type {
            Option::Some(ht) => ht.wf(),
            Option::None => true,
        },
    ensures
        final(config_headers).wf(),
        match header_type {
            Option::Some(ht) => (match ht.request {
                Option::Some(req) => merge_rel(
                    old(config_headers).request,
                    req,
                    final(config_headers).request,
                ),
                Option::None => final(config_headers).request == old(config_headers).request,
            }) && (match ht.response {
                Option::Some(res) => merge_rel(
                    old(config_headers).response,
                    res,
                    final(config_headers).response,
                ),
                Option::None => final(config_headers).response == old(config_headers).response,
            }),
            Option::None => *final(config_headers) == *old(config_headers),
        },
{
    match header_type {
        Option::Some(ht) => {
            match &ht.request {
                Option::Some(req) => merge_headers_actions(req, &mut config_headers.request),
                Option::None => {},
            }
            match &ht.response {
                Option::Some(res) => merge_headers_actions(res, &mut config_headers.response),
                Option::None => {},
            }
        },
        Option::None => {},
    }
}

/// Builds the location-level and file-server-level base policies from a
/// server's declarative headers.
pub fn get_config_headers_from(headers: Option<&Headers>) -> (r: (ConfigHeaders, ConfigHeaders))
    requires
        match headers {
            Option::Some(h) => h.wf(),
            Option::None => true,
        },
    ensures
        r.0.wf(),
        r.1.wf(),
        r.1.request is None,
        match headers {
            Option::Some(h) => (match h.locations {
                Option::Some(ht) => (match ht.request {
                    Option::Some(a) => r.0.request matches Option::Some(c) && copied_actions(a, c),
                    Option::None => r.0.request is None,
                }) && (match ht.response {
                    Option::Some(a) => r.0.response matches Option::Some(c) && copied_actions(
                        a,
                        c,
                    ),
                    Option::None => r.0.response is None,
                }),
                Option::None => r.0.request is None && r.0.response is None,
            }) && (match h.file_servers {
                Option::Some(a) => r.1.response matches Option::Some(c) && copied_actions(a, c),
                Option::None => r.1.response is None,
            }),
            Option::None => r.0.request is None && r.0.response is None && r.1.response is None,
        },
{
    let mut l_headers = ConfigHeaders::default();
    let mut fs_headers = ConfigHeaders::default();
    match headers {
        Option::Some(h) => {
            match &h.locations {
                Option::Some(locations) => {
                    match &locations.request {
                        Option::Some(request) => {
                            l_headers.request = Some(process_headers_set_del(request));
                        },
                        Option::None => {},
                    }
                    match &locations.response {
                        Option::Some(response) => {
                            l_headers.response = Some(process_headers_set_del(response));
                        },
                        Option::None => {},
                    }
                },
                Option::None => {},
            }
            match &h.file_servers {
                Option::Some(response) => {
                    fs_headers.response = Some(process_headers_set_del(response));
                },
                Option::None => {},
            }
        },
        Option::None => {},
    }
    (l_headers, fs_headers)
}

} // verus!

use vstd::prelude::*;

verus! {

/// The part of an address entry before its first `/`, that is the entry
/// without its mask.
pub open spec fn strip_mask(s: Seq<char>) -> Seq<char>
    decreases s.len(),
{
    if s.len() == 0 || s[0] == '/' {
        Seq::empty()
    } else {
        seq![s[0]] + strip_mask(s.drop_first())
    }
}

/// Where `s` has no `/` among its first `k` characters, its mask-free part
/// starts with those characters.
proof fn lemma_strip_mask_prefix(s: Seq<char>, k: int)
    requires
        0 <= k <= s.len(),
        forall|j: int| 0 <= j < k ==> s[j] != '/',
    ensures
        strip_mask(s) == s.subrange(0, k) + strip_mask(s.subrange(k, s.len() as int)),
    decreases k,
{
    if k > 0 {
        lemma_strip_mask_prefix(s.drop_first(), k - 1);
        assert(s.drop_first().subrange(0, k - 1) == s.subrange(1, k));
        assert(s.drop_first().subrange(k - 1, s.len() - 1) == s.subrange(k, s.len() as int));
        assert(s.subrange(0, k) == seq![s[0]] + s.subrange(1, k));
    } else {
        assert(s.subrange(0, 0) =~= Seq::<char>::empty());
        assert(s.subrange(0, s.len() as int) == s);
    }
}

/// A candidate address: an address entry with any trailing mask removed.
#[derive(Debug)]
pub struct Ip(pub String);

impl View for Ip {
    type V = Seq<char>;

    open spec fn view(&self) -> Seq<char> {
        self.0@
    }
}

impl Ip {
    /// The candidate of an address entry: the entry up to its first `/`.
    pub fn from_entry(value: &String) -> (r: Ip)
        ensures
            r@ == strip_mask(value@),
    {
        let s = value.as_str();
        let n = s.unicode_len();
        let mut k: usize = 0;
        while k < n && s.get_char(k) != '/'
            invariant
                n == s@.len(),
                s@ == value@,
                k <= n,
                forall|j: int| 0 <= j < k ==> s@[j] != '/',
            decreases n - k,
        {
            k = k + 1;
        }
        proof {
            lemma_strip_mask_prefix(s@, k as int);
            let rest = s@.subrange(k as int, s@.len() as int);
            assert(rest.len() == 0 || rest[0] == '/');
            assert(strip_mask(rest) == Seq::<char>::empty());
        }
        Ip(String::from_str(s.substring_char(0, k)))
    }
}

impl From<&String> for Ip {
    fn from(value: &String) -> (r: Ip)
        ensures
            r@ == strip_mask(value@),
    {
        Ip::from_entry(value)
    }
}

impl vstd::std_specs::convert::FromSpecImpl<&String> for Ip {
    open spec fn obeys_from_spec() -> bool {
        false
    }

    open spec fn from_spec(v: &String) -> Ip {
        arbitrary()
    }
}

/// The candidate-address document: three groups of address entries, each
/// entry possibly carrying a `/mask` suffix.
#[derive(Debug)]
pub struct Meta {
    pub web: Vec<String>,
    pub api: Vec<String>,
    pub git: Vec<String>,
}

/// The text of each entry of a group.
pub open spec fn entries_of(group: Seq<String>) -> Seq<Seq<char>> {
    group.map_values(|e: String| e@)
}

/// The address text of each candidate of a list.
pub open spec fn ips_view(ips: Seq<Ip>) -> Seq<Seq<char>> {
    ips.map_values(|ip: Ip| ip@)
}

/// All entries of a document, in the order git, api, web.
pub open spec fn all_entries(meta: &Meta) -> Seq<Seq<char>> {
    entries_of(meta.git@) + entries_of(meta.api@) + entries_of(meta.web@)
}

/// The candidate list of a document: every entry without its mask, in the
/// order of `all_entries`.
pub open spec fn candidates(meta: &Meta) -> Seq<Seq<char>> {
    all_entries(meta).map_values(|e: Seq<char>| strip_mask(e))
}

/// Appends the candidate of each entry of `group` to `out`, in order.
fn push_candidates(out: &mut Vec<Ip>, group: &Vec<String>)
    ensures
        ips_view(final(out)@) == ips_view(old(out)@) + entries_of(group@).map_values(
            |e: Seq<char>| strip_mask(e),
        ),
{
    let ghost start = ips_view(out@);
    for i in 0..group.len()
        invariant
            ips_view(out@) == start + entries_of(group@.subrange(0, i as int)).map_values(
                |e: Seq<char>| strip_mask(e),
            ),
    {
        let ghost before = out@;
        let ip = Ip::from_entry(&group[i]);
        out.push(ip);
        proof {
            let f = |e: Seq<char>| strip_mask(e);
            assert(ips_view(out@) =~= ips_view(before).push(strip_mask(group@[i as int]@)));
            assert(entries_of(group@.subrange(0, i + 1)).map_values(f) =~= entries_of(
                group@.subrange(0, i as int),
            ).map_values(f).push(strip_mask(group@[i as int]@)));
        }
    }
    assert(group@.subrange(0, group@.len() as int) == group@);
}

impl Meta {
    /// A document made of its three groups.
    pub fn from_groups(web: Vec<String>, api: Vec<String>, git: Vec<String>) -> (r: Meta)
        ensures
            r.web@ == web@,
            r.api@ == api@,
            r.git@ == git@,
    {
        Meta { web, api, git }
    }
}

/// The candidate list of a document: the entries of the git group, then of
/// the api group, then of the web group, each without its mask.
pub fn get_github_ips(meta: &Meta) -> (r: Vec<Ip>)
    ensures
        ips_view(r@) == candidates(meta),
{
    let mut ips: Vec<Ip> = Vec::new();
    push_candidates(&mut ips, &meta.git);
    push_candidates(&mut ips, &meta.api);
    push_candidates(&mut ips, &meta.web);
    proof {
        let f = |e: Seq<char>| strip_mask(e);
        let g = entries_of(meta.git@);
        let a = entries_of(meta.api@);
        let w = entries_of(meta.web@);
        assert(ips_view(Seq::<Ip>::empty()) =~= Seq::<Seq<char>>::empty());
        assert((g + a + w).map_values(f) =~= g.map_values(f) + a.map_values(f) + w.map_values(f));
    }
    ips
}

} // verus!

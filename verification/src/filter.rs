use vstd::prelude::*;

verus! {

/// A raw way record: an ordered sequence of node references and a set of
/// descriptive tags. Transient; consumed during graph construction.
pub struct RawWay {
    pub nodes: Vec<i64>,
    pub tags: Vec<(String, String)>,
}

/// Some tag of the way carries this key.
pub open spec fn tags_have_key(tags: Seq<(String, String)>, key: Seq<char>) -> bool {
    exists|i: int| 0 <= i < tags.len() && (#[trigger] tags[i]).0@ == key
}

/// Some tag of the way carries this key with this value.
pub open spec fn tags_have(tags: Seq<(String, String)>, key: Seq<char>, value: Seq<char>) -> bool {
    exists|i: int| 0 <= i < tags.len() && (#[trigger] tags[i]).0@ == key && tags[i].1@ == value
}

/// The way filter's configuration: the allow-list of paved surface values and
/// the deny-list of inaccessible tag pairs. Configuration data, constructed
/// once at process start.
pub struct FilterConfig {
    pub surfaces: Vec<String>,
    pub denied: Vec<(String, String)>,
}

/// A way is cyclable when it is a road (it has a highway tag), it is paved
/// (no surface tag at all, or a surface value on the allow-list), and no
/// deny-listed tag pair is present.
pub open spec fn spec_cyclable(tags: Seq<(String, String)>, cfg: FilterConfig) -> bool {
    &&& tags_have_key(tags, "highway"@)
    &&& (!tags_have_key(tags, "surface"@) || exists|i: int|
        0 <= i < cfg.surfaces@.len() && tags_have(tags, "surface"@, (#[trigger] cfg.surfaces@[i])@))
    &&& forall|i: int|
        0 <= i < cfg.denied@.len() ==> !tags_have(
            tags,
            (#[trigger] cfg.denied@[i]).0@,
            cfg.denied@[i].1@,
        )
}

/// String equality by content.
fn str_eq(a: &str, b: &str) -> (r: bool)
    ensures
        r == (a@ == b@),
{
    let sa: String = a.to_owned();
    let sb: String = b.to_owned();
    sa == sb
}

/// Whether any tag carries this key.
pub fn tags_contain_key(tags: &Vec<(String, String)>, key: &str) -> (r: bool)
    ensures
        r == tags_have_key(tags@, key@),
{
    let n = tags.len();
    let mut i: usize = 0;
    while i < n
        invariant
            0 <= i <= n,
            n == tags@.len(),
            forall|j: int| 0 <= j < i ==> (#[trigger] tags@[j]).0@ != key@,
        decreases n - i,
    {
        if str_eq(tags[i].0.as_str(), key) {
            assert(tags@[i as int].0@ == key@);
            return true;
        }
        i = i + 1;
    }
    false
}

/// Whether any tag carries this key with this value.
pub fn tags_contain(tags: &Vec<(String, String)>, key: &str, value: &str) -> (r: bool)
    ensures
        r == tags_have(tags@, key@, value@),
{
    let n = tags.len();
    let mut i: usize = 0;
    while i < n
        invariant
            0 <= i <= n,
            n == tags@.len(),
            forall|j: int|
                0 <= j < i ==> !((#[trigger] tags@[j]).0@ == key@ && tags@[j].1@ == value@),
        decreases n - i,
    {
        if str_eq(tags[i].0.as_str(), key) && str_eq(tags[i].1.as_str(), value) {
            assert(tags@[i as int].0@ == key@ && tags@[i as int].1@ == value@);
            return true;
        }
        i = i + 1;
    }
    false
}

/// The way-filtering predicate: decides which raw ways become graph edges.
pub fn is_cyclable_way(way: &RawWay, cfg: &FilterConfig) -> (r: bool)
    ensures
        r == spec_cyclable(way.tags@, *cfg),
{
    let is_road = tags_contain_key(&way.tags, "highway");
    let has_surface = tags_contain_key(&way.tags, "surface");
    let mut paved_listed = false;
    let ns = cfg.surfaces.len();
    let mut i: usize = 0;
    while i < ns
        invariant
            0 <= i <= ns,
            ns == cfg.surfaces@.len(),
            paved_listed == exists|j: int|
                0 <= j < i && tags_have(way.tags@, "surface"@, (#[trigger] cfg.surfaces@[j])@),
        decreases ns - i,
    {
        if tags_contain(&way.tags, "surface", cfg.surfaces[i].as_str()) {
            paved_listed = true;
        }
        i = i + 1;
    }
    let mut blocked = false;
    let nd = cfg.denied.len();
    let mut k: usize = 0;
    while k < nd
        invariant
            0 <= k <= nd,
            nd == cfg.denied@.len(),
            blocked == exists|j: int|
                0 <= j < k && tags_have(
                    way.tags@,
                    (#[trigger] cfg.denied@[j]).0@,
                    cfg.denied@[j].1@,
                ),
        decreases nd - k,
    {
        if tags_contain(&way.tags, cfg.denied[k].0.as_str(), cfg.denied[k].1.as_str()) {
            blocked = true;
        }
        k = k + 1;
    }
    is_road && (!has_surface || paved_listed) && !blocked
}

/// The fixed filter tables: the paved-surface allow-list and the deny-list of
/// inaccessible road classes and access restrictions.
pub fn default_filter_config() -> (r: FilterConfig)
    ensures
        r.surfaces@.len() == 4,
        r.surfaces@[0]@ == "paved"@,
        r.surfaces@[1]@ == "asphalt"@,
        r.surfaces@[2]@ == "concrete"@,
        r.surfaces@[3]@ == "paving_stones"@,
        r.denied@.len() == 7,
        r.denied@[0].0@ == "highway"@ && r.denied@[0].1@ == "motorway"@,
        r.denied@[1].0@ == "highway"@ && r.denied@[1].1@ == "motorway_link"@,
        r.denied@[2].0@ == "access"@ && r.denied@[2].1@ == "agricultural"@,
        r.denied@[3].0@ == "access"@ && r.denied@[3].1@ == "delivery"@,
        r.denied@[4].0@ == "access"@ && r.denied@[4].1@ == "forestry"@,
        r.denied@[5].0@ == "access"@ && r.denied@[5].1@ == "delivery"@,
        r.denied@[6].0@ == "access"@ && r.denied@[6].1@ == "use_sidepath"@,
{
    let mut surfaces: Vec<String> = Vec::new();
    surfaces.push("paved".to_owned());
    surfaces.push("asphalt".to_owned());
    surfaces.push("concrete".to_owned());
    surfaces.push("paving_stones".to_owned());
    let mut denied: Vec<(String, String)> = Vec::new();
    denied.push(("highway".to_owned(), "motorway".to_owned()));
    denied.push(("highway".to_owned(), "motorway_link".to_owned()));
    denied.push(("access".to_owned(), "agricultural".to_owned()));
    denied.push(("access".to_owned(), "delivery".to_owned()));
    denied.push(("access".to_owned(), "forestry".to_owned()));
    denied.push(("access".to_owned(), "delivery".to_owned()));
    denied.push(("access".to_owned(), "use_sidepath".to_owned()));
    FilterConfig { surfaces, denied }
}

/// A way lacking any highway tag is never cyclable.
pub proof fn lemma_no_highway_not_cyclable(tags: Seq<(String, String)>, cfg: FilterConfig)
    requires
        !tags_have_key(tags, "highway"@),
    ensures
        !spec_cyclable(tags, cfg),
{
}

/// Under a configuration that denies highway=motorway first, a motorway is
/// never cyclable, whatever its other tags.
pub proof fn lemma_motorway_not_cyclable(tags: Seq<(String, String)>, cfg: FilterConfig)
    requires
        cfg.denied@.len() >= 1,
        cfg.denied@[0].0@ == "highway"@,
        cfg.denied@[0].1@ == "motorway"@,
        tags_have(tags, "highway"@, "motorway"@),
    ensures
        !spec_cyclable(tags, cfg),
{
}

/// Under the fixed allow-list, a way whose only surface value is dirt is not
/// cyclable.
pub proof fn lemma_dirt_surface_not_cyclable(tags: Seq<(String, String)>, cfg: FilterConfig)
    requires
        cfg.surfaces@.len() == 4,
        cfg.surfaces@[0]@ == "paved"@,
        cfg.surfaces@[1]@ == "asphalt"@,
        cfg.surfaces@[2]@ == "concrete"@,
        cfg.surfaces@[3]@ == "paving_stones"@,
        tags_have(tags, "surface"@, "dirt"@),
        forall|v: Seq<char>| tags_have(tags, "surface"@, v) ==> v == "dirt"@,
    ensures
        !spec_cyclable(tags, cfg),
{
    reveal_strlit("dirt");
    reveal_strlit("paved");
    reveal_strlit("asphalt");
    reveal_strlit("concrete");
    reveal_strlit("paving_stones");
    assert(tags_have_key(tags, "surface"@)) by {
        let i = choose|i: int|
            0 <= i < tags.len() && (#[trigger] tags[i]).0@ == "surface"@ && tags[i].1@ == "dirt"@;
        assert((tags[i]).0@ == "surface"@);
    }
    assert forall|i: int| 0 <= i < cfg.surfaces@.len() implies !tags_have(
        tags,
        "surface"@,
        (#[trigger] cfg.surfaces@[i])@,
    ) by {
        assert(cfg.surfaces@[i]@.len() != 4);
        if tags_have(tags, "surface"@, cfg.surfaces@[i]@) {
            assert(cfg.surfaces@[i]@ == "dirt"@);
        }
    }
}

} // verus!

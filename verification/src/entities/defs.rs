use vstd::prelude::*;

verus! {

/// Names a defined scalar var.
#[derive(Clone, Copy, PartialEq, Eq, Structural, PartialOrd, Ord, Debug, Hash)]
pub struct VarId(pub u16);

/// Names a defined u64 var.
#[derive(Clone, Copy, PartialEq, Eq, Structural, PartialOrd, Ord, Debug, Hash)]
pub struct UVarId(pub u16);

/// Names a defined relation kind.
#[derive(Clone, Copy, PartialEq, Eq, Structural, PartialOrd, Ord, Debug, Hash)]
pub struct RelationId(pub u16);

/// Names a defined set.
#[derive(Clone, Copy, PartialEq, Eq, Structural, PartialOrd, Ord, Debug, Hash)]
pub struct SetId(pub u16);

impl Default for VarId {
    fn default() -> (r: VarId)
        ensures
            r.0 == 0,
    {
        VarId(0)
    }
}

impl Default for UVarId {
    fn default() -> (r: UVarId)
        ensures
            r.0 == 0,
    {
        UVarId(0)
    }
}

impl Default for RelationId {
    fn default() -> (r: RelationId)
        ensures
            r.0 == 0,
    {
        RelationId(0)
    }
}

impl Default for SetId {
    fn default() -> (r: SetId)
        ensures
            r.0 == 0,
    {
        SetId(0)
    }
}

/// Most sets a schema may define: membership lives in one 64-bit word per
/// entity.
pub const MAX_SETS: usize = 64;

/// The schema's vocabulary: which vars, relations and sets exist, by name.
/// Ids are assigned in definition order; stores size themselves from this
/// at construction, so define everything before building the world.
#[derive(Clone)]
pub struct Definitions {
    var_names: Vec<String>,
    uvar_names: Vec<String>,
    relation_names: Vec<String>,
    set_names: Vec<String>,
}

/// The ids `0..count`, truncated to 16 bits as the schema counts them.
pub open spec fn id_range(count: nat) -> Seq<u16> {
    Seq::new(((count as int) % 0x1_0000) as nat, |i: int| i as u16)
}

/// The name at `id` within `names`, if defined.
pub open spec fn lookup_name(names: Seq<Seq<char>>, id: u16) -> Option<Seq<char>> {
    if (id as int) < names.len() {
        Some(names[id as int])
    } else {
        None
    }
}

/// The characters of an optional text.
pub open spec fn text_view(r: Option<&str>) -> Option<Seq<char>> {
    match r {
        Some(s) => Some(s@),
        None => None,
    }
}

fn name_at(names: &Vec<String>, id: u16) -> (r: Option<&str>)
    ensures
        match r {
            Some(s) => (id as int) < names@.len() && s@ == names@[id as int]@,
            None => (id as int) >= names@.len(),
        },
{
    if (id as usize) < names.len() {
        Some(names[id as usize].as_str())
    } else {
        None
    }
}

impl Default for Definitions {
    fn default() -> (d: Definitions)
        ensures
            d.wf(),
            d.var_names().len() == 0,
            d.uvar_names().len() == 0,
            d.relation_names().len() == 0,
            d.set_names().len() == 0,
    {
        Definitions {
            var_names: Vec::new(),
            uvar_names: Vec::new(),
            relation_names: Vec::new(),
            set_names: Vec::new(),
        }
    }
}

impl Definitions {
    pub closed spec fn var_names(&self) -> Seq<Seq<char>> {
        self.var_names@.map_values(|s: String| s@)
    }

    pub closed spec fn uvar_names(&self) -> Seq<Seq<char>> {
        self.uvar_names@.map_values(|s: String| s@)
    }

    pub closed spec fn relation_names(&self) -> Seq<Seq<char>> {
        self.relation_names@.map_values(|s: String| s@)
    }

    pub closed spec fn set_names(&self) -> Seq<Seq<char>> {
        self.set_names@.map_values(|s: String| s@)
    }

    /// Every id a definition handed out fits in 16 bits, and sets fit the
    /// inline membership word.
    pub open spec fn wf(&self) -> bool {
        &&& self.var_names().len() <= 0x1_0000
        &&& self.uvar_names().len() <= 0x1_0000
        &&& self.relation_names().len() <= 0x1_0000
        &&& self.set_names().len() <= MAX_SETS
    }

    pub fn define_var(&mut self, name: &str) -> (id: VarId)
        requires
            old(self).var_names().len() < 0x1_0000,
        ensures
            id.0 == old(self).var_names().len(),
            final(self).var_names() == old(self).var_names().push(name@),
            final(self).uvar_names() == old(self).uvar_names(),
            final(self).relation_names() == old(self).relation_names(),
            final(self).set_names() == old(self).set_names(),
    {
        let id = VarId(self.var_names.len() as u16);
        self.var_names.push(name.to_owned());
        assert(self.var_names() =~= old(self).var_names().push(name@));
        id
    }

    pub fn define_uvar(&mut self, name: &str) -> (id: UVarId)
        requires
            old(self).uvar_names().len() < 0x1_0000,
        ensures
            id.0 == old(self).uvar_names().len(),
            final(self).uvar_names() == old(self).uvar_names().push(name@),
            final(self).var_names() == old(self).var_names(),
            final(self).relation_names() == old(self).relation_names(),
            final(self).set_names() == old(self).set_names(),
    {
        let id = UVarId(self.uvar_names.len() as u16);
        self.uvar_names.push(name.to_owned());
        assert(self.uvar_names() =~= old(self).uvar_names().push(name@));
        id
    }

    pub fn define_relation(&mut self, name: &str) -> (id: RelationId)
        requires
            old(self).relation_names().len() < 0x1_0000,
        ensures
            id.0 == old(self).relation_names().len(),
            final(self).relation_names() == old(self).relation_names().push(name@),
            final(self).var_names() == old(self).var_names(),
            final(self).uvar_names() == old(self).uvar_names(),
            final(self).set_names() == old(self).set_names(),
    {
        let id = RelationId(self.relation_names.len() as u16);
        self.relation_names.push(name.to_owned());
        assert(self.relation_names() =~= old(self).relation_names().push(name@));
        id
    }

    /// Membership lives in each entity's inline 64-bit word, one bit per
    /// set, so at most 64 sets may be defined.
    pub fn define_set(&mut self, name: &str) -> (id: SetId)
        requires
            old(self).set_names().len() < MAX_SETS,
        ensures
            id.0 == old(self).set_names().len(),
            final(self).set_names() == old(self).set_names().push(name@),
            final(self).var_names() == old(self).var_names(),
            final(self).uvar_names() == old(self).uvar_names(),
            final(self).relation_names() == old(self).relation_names(),
    {
        let id = SetId(self.set_names.len() as u16);
        self.set_names.push(name.to_owned());
        assert(self.set_names() =~= old(self).set_names().push(name@));
        id
    }

    pub fn get_var_name(&self, id: VarId) -> (r: Option<&str>)
        ensures
            text_view(r) == lookup_name(self.var_names(), id.0),
    {
        name_at(&self.var_names, id.0)
    }

    pub fn get_uvar_name(&self, id: UVarId) -> (r: Option<&str>)
        ensures
            text_view(r) == lookup_name(self.uvar_names(), id.0),
    {
        name_at(&self.uvar_names, id.0)
    }

    pub fn get_relation_name(&self, id: RelationId) -> (r: Option<&str>)
        ensures
            text_view(r) == lookup_name(self.relation_names(), id.0),
    {
        name_at(&self.relation_names, id.0)
    }

    pub fn get_set_name(&self, id: SetId) -> (r: Option<&str>)
        ensures
            text_view(r) == lookup_name(self.set_names(), id.0),
    {
        name_at(&self.set_names, id.0)
    }

    pub fn iter_vars(&self) -> (r: Vec<VarId>)
        ensures
            r@.map_values(|v: VarId| v.0) == id_range(self.var_names().len()),
    {
        let n = count_ids(self.var_names.len());
        let mut r: Vec<VarId> = Vec::new();
        let mut i: u16 = 0;
        while i < n
            invariant
                i <= n,
                r@.len() == i,
                forall|k: int| 0 <= k < i ==> #[trigger] r@[k].0 == k,
            decreases n - i,
        {
            r.push(VarId(i));
            i = i + 1;
        }
        assert(r@.map_values(|v: VarId| v.0) =~= id_range(self.var_names().len()));
        r
    }

    pub fn iter_uvars(&self) -> (r: Vec<UVarId>)
        ensures
            r@.map_values(|v: UVarId| v.0) == id_range(self.uvar_names().len()),
    {
        let n = count_ids(self.uvar_names.len());
        let mut r: Vec<UVarId> = Vec::new();
        let mut i: u16 = 0;
        while i < n
            invariant
                i <= n,
                r@.len() == i,
                forall|k: int| 0 <= k < i ==> #[trigger] r@[k].0 == k,
            decreases n - i,
        {
            r.push(UVarId(i));
            i = i + 1;
        }
        assert(r@.map_values(|v: UVarId| v.0) =~= id_range(self.uvar_names().len()));
        r
    }

    pub fn iter_relations(&self) -> (r: Vec<RelationId>)
        ensures
            r@.map_values(|v: RelationId| v.0) == id_range(self.relation_names().len()),
    {
        let n = count_ids(self.relation_names.len());
        let mut r: Vec<RelationId> = Vec::new();
        let mut i: u16 = 0;
        while i < n
            invariant
                i <= n,
                r@.len() == i,
                forall|k: int| 0 <= k < i ==> #[trigger] r@[k].0 == k,
            decreases n - i,
        {
            r.push(RelationId(i));
            i = i + 1;
        }
        assert(r@.map_values(|v: RelationId| v.0) =~= id_range(self.relation_names().len()));
        r
    }

    pub fn iter_sets(&self) -> (r: Vec<SetId>)
        ensures
            r@.map_values(|v: SetId| v.0) == id_range(self.set_names().len()),
    {
        let n = count_ids(self.set_names.len());
        let mut r: Vec<SetId> = Vec::new();
        let mut i: u16 = 0;
        while i < n
            invariant
                i <= n,
                r@.len() == i,
                forall|k: int| 0 <= k < i ==> #[trigger] r@[k].0 == k,
            decreases n - i,
        {
            r.push(SetId(i));
            i = i + 1;
        }
        assert(r@.map_values(|v: SetId| v.0) =~= id_range(self.set_names().len()));
        r
    }

    /// How many vars are defined, as the stores size themselves.
    pub fn var_count(&self) -> (n: usize)
        ensures
            n == id_range(self.var_names().len()).len(),
    {
        count_ids(self.var_names.len()) as usize
    }

    /// How many u64 vars are defined, as the stores size themselves.
    pub fn uvar_count(&self) -> (n: usize)
        ensures
            n == id_range(self.uvar_names().len()).len(),
    {
        count_ids(self.uvar_names.len()) as usize
    }

    /// How many relation kinds are defined.
    pub fn relation_count(&self) -> (n: usize)
        ensures
            n == id_range(self.relation_names().len()).len(),
    {
        count_ids(self.relation_names.len()) as usize
    }

    /// How many sets are defined.
    pub fn set_count(&self) -> (n: usize)
        ensures
            n == id_range(self.set_names().len()).len(),
    {
        count_ids(self.set_names.len()) as usize
    }
}

/// A name count as a 16-bit id bound, truncating as the schema does.
fn count_ids(len: usize) -> (n: u16)
    ensures
        n == (len as int) % 0x1_0000,
{
    (len % 0x1_0000) as u16
}

} // verus!

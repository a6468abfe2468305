//! Saved connection settings and the rules for keeping a list of them.
use vstd::prelude::*;

verus! {

/// How to reach a storage box.
#[derive(Debug)]
pub struct ConnectionConfig {
    pub id: String,
    pub name: String,
    pub host: String,
    pub port: u16,
    pub username: String,
    pub password: String,
}

impl Clone for ConnectionConfig {
    fn clone(&self) -> (r: Self)
        ensures
            r == *self,
    {
        ConnectionConfig {
            id: self.id.clone(),
            name: self.name.clone(),
            host: self.host.clone(),
            port: self.port,
            username: self.username.clone(),
            password: self.password.clone(),
        }
    }
}

/// The position of the first configuration with the given id.
pub open spec fn first_with_id(cs: Seq<ConnectionConfig>, id: Seq<char>) -> Option<int>
    decreases cs.len(),
{
    if cs.len() == 0 {
        None
    } else if cs[0].id@ == id {
        Some(0)
    } else {
        match first_with_id(cs.drop_first(), id) {
            Some(k) => Some(k + 1),
            None => None,
        }
    }
}

/// Saving `c`: it replaces the first configuration with its id, or is added
/// at the end when there is none.
pub open spec fn upsert_config(cs: Seq<ConnectionConfig>, c: ConnectionConfig) -> Seq<
    ConnectionConfig,
> {
    match first_with_id(cs, c.id@) {
        Some(i) => cs.update(i, c),
        None => cs.push(c),
    }
}

pub open spec fn id_differs(id: Seq<char>) -> spec_fn(ConnectionConfig) -> bool {
    |c: ConnectionConfig| c.id@ != id
}

/// Deleting `id`: every configuration with that id goes, the others keep
/// their order.
pub open spec fn without_id(cs: Seq<ConnectionConfig>, id: Seq<char>) -> Seq<ConnectionConfig> {
    cs.filter(id_differs(id))
}

pub proof fn lemma_first_with_id(cs: Seq<ConnectionConfig>, id: Seq<char>)
    ensures
        match first_with_id(cs, id) {
            Some(i) => 0 <= i < cs.len() && cs[i].id@ == id && forall|j: int|
                0 <= j < i ==> (#[trigger] cs[j]).id@ != id,
            None => forall|j: int| 0 <= j < cs.len() ==> (#[trigger] cs[j]).id@ != id,
        },
    decreases cs.len(),
{
    if cs.len() > 0 {
        lemma_first_with_id(cs.drop_first(), id);
        if cs[0].id@ != id {
            match first_with_id(cs.drop_first(), id) {
                Some(k) => {
                    assert forall|j: int| 0 <= j < k + 1 implies (#[trigger] cs[j]).id@ != id by {
                        if j > 0 {
                            assert(cs[j] == cs.drop_first()[j - 1]);
                        }
                    }
                },
                None => {
                    assert forall|j: int| 0 <= j < cs.len() implies (#[trigger] cs[j]).id@ != id by {
                        if j > 0 {
                            assert(cs[j] == cs.drop_first()[j - 1]);
                        }
                    }
                },
            }
        }
    }
}

/// The first position holding a configuration with the id `id`.
pub fn find_config(cs: &Vec<ConnectionConfig>, id: &String) -> (r: Option<usize>)
    ensures
        match r {
            Some(i) => first_with_id(cs@, id@) == Some(i as int) && i < cs.len(),
            None => first_with_id(cs@, id@) is None,
        },
{
    proof {
        lemma_first_with_id(cs@, id@);
    }
    let mut i: usize = 0;
    while i < cs.len()
        invariant
            i <= cs.len(),
            forall|j: int| 0 <= j < i ==> (#[trigger] cs@[j]).id@ != id@,
            match first_with_id(cs@, id@) {
                Some(k) => 0 <= k < cs.len() && cs@[k].id@ == id@ && forall|j: int|
                    0 <= j < k ==> (#[trigger] cs@[j]).id@ != id@,
                None => forall|j: int| 0 <= j < cs.len() ==> (#[trigger] cs@[j]).id@ != id@,
            },
        decreases cs.len() - i,
    {
        if cs[i].id == *id {
            proof {
                match first_with_id(cs@, id@) {
                    Some(k) => {
                        assert(k == i);
                    },
                    None => {
                        assert(cs@[i as int].id@ == id@);
                    },
                }
            }
            return Some(i);
        }
        i = i + 1;
    }
    None
}

/// Saving a configuration and then looking for its id finds it.
pub proof fn saved_config_is_found(cs: Seq<ConnectionConfig>, c: ConnectionConfig)
    ensures
        first_with_id(upsert_config(cs, c), c.id@) matches Some(i) && upsert_config(cs, c)[i]
            == c,
        upsert_config(cs, c).len() == cs.len() + (if first_with_id(cs, c.id@) is Some {
            0int
        } else {
            1int
        }),
{
    lemma_first_with_id(cs, c.id@);
    let r = upsert_config(cs, c);
    lemma_first_with_id(r, c.id@);
    match first_with_id(cs, c.id@) {
        Some(i) => {
            assert(r[i] == c);
            match first_with_id(r, c.id@) {
                Some(k) => {
                    if k < i {
                        assert(r[k] == cs[k]);
                    }
                    if k > i {
                        assert(r[i].id@ == c.id@);
                    }
                },
                None => {
                    assert(r[i].id@ == c.id@);
                },
            }
        },
        None => {
            let n = cs.len() as int;
            assert(r[n] == c);
            match first_with_id(r, c.id@) {
                Some(k) => {
                    if k < n {
                        assert(r[k] == cs[k]);
                    }
                },
                None => {
                    assert(r[n].id@ == c.id@);
                },
            }
        },
    }
}

/// Saving the same configuration twice is saving it once.
pub proof fn save_config_idempotent(cs: Seq<ConnectionConfig>, c: ConnectionConfig)
    ensures
        upsert_config(upsert_config(cs, c), c) == upsert_config(cs, c),
{
    saved_config_is_found(cs, c);
    let r = upsert_config(cs, c);
    lemma_first_with_id(r, c.id@);
    let i = first_with_id(r, c.id@)->0;
    assert(r.update(i, c) =~= r);
}

/// After deleting an id no configuration with it is left, and every other
/// configuration stays.
pub proof fn deleted_config_is_gone(cs: Seq<ConnectionConfig>, id: Seq<char>)
    ensures
        first_with_id(without_id(cs, id), id) is None,
        forall|j: int|
            0 <= j < cs.len() && (#[trigger] cs[j]).id@ != id ==> without_id(cs, id).contains(
                cs[j],
            ),
{
    let f = id_differs(id);
    let w = without_id(cs, id);
    lemma_first_with_id(w, id);
    assert forall|j: int| 0 <= j < w.len() implies (#[trigger] w[j]).id@ != id by {
        cs.lemma_filter_pred(f, j);
    }
    assert forall|j: int|
        0 <= j < cs.len() && (#[trigger] cs[j]).id@ != id implies without_id(cs, id).contains(
        cs[j],
    ) by {
        cs.lemma_filter_contains(f, j);
    }
}

/// Saving a configuration whose id is new and then deleting that id gives
/// back the list as it was.
pub proof fn save_then_delete_restores(cs: Seq<ConnectionConfig>, c: ConnectionConfig)
    requires
        first_with_id(cs, c.id@) is None,
    ensures
        without_id(upsert_config(cs, c), c.id@) == cs,
{
    lemma_first_with_id(cs, c.id@);
    let f = id_differs(c.id@);
    cs.lemma_filter_push(c, f);
    lemma_filter_all(cs, f);
}

proof fn lemma_filter_all(s: Seq<ConnectionConfig>, f: spec_fn(ConnectionConfig) -> bool)
    requires
        forall|j: int| 0 <= j < s.len() ==> f(#[trigger] s[j]),
    ensures
        s.filter(f) == s,
    decreases s.len(),
{
    reveal(Seq::filter);
    if s.len() > 0 {
        let t = s.drop_last();
        assert forall|j: int| 0 <= j < t.len() implies f(#[trigger] t[j]) by {
            assert(t[j] == s[j]);
        }
        lemma_filter_all(t, f);
        assert(f(s.last()));
        assert(t.push(s.last()) =~= s);
    } else {
        assert(s.filter(f) =~= s);
    }
}


/// Stores `config` in `cs` under its id: it replaces the first entry with the
/// same id, or is added at the end.
pub fn upsert_into(cs: &mut Vec<ConnectionConfig>, config: ConnectionConfig)
    ensures
        final(cs)@ == upsert_config(old(cs)@, config),
{
    match find_config(cs, &config.id) {
        Some(i) => {
            cs.set(i, config);
        },
        None => {
            cs.push(config);
        },
    }
}

/// The entries of `cs` whose id is not `id`, in order.
pub fn without_id_vec(cs: &Vec<ConnectionConfig>, id: &String) -> (r: Vec<ConnectionConfig>)
    ensures
        r@ == without_id(cs@, id@),
{
    let ghost f = id_differs(id@);
    let mut kept: Vec<ConnectionConfig> = Vec::new();
    let mut i: usize = 0;
    let n = cs.len();
    assert(cs@.take(0) =~= Seq::<ConnectionConfig>::empty());
    proof {
        reveal(Seq::filter);
        assert(cs@.take(0).filter(f) =~= Seq::<ConnectionConfig>::empty());
    }
    while i < n
        invariant
            i <= n == cs.len(),
            f == id_differs(id@),
            kept@ == cs@.take(i as int).filter(f),
        decreases n - i,
    {
        assert(cs@.take(i + 1) =~= cs@.take(i as int).push(cs@[i as int]));
        proof {
            cs@.take(i as int).lemma_filter_push(cs@[i as int], f);
        }
        let same = cs[i].id == *id;
        assert(f(cs@[i as int]) == !same);
        if !same {
            kept.push(cs[i].clone());
        }
        i = i + 1;
    }
    assert(cs@.take(n as int) =~= cs@);
    kept
}


/// Deleting works entry by entry, in order: on two lists one after the
/// other it is deleting from each and putting the results one after the
/// other, and a single entry stays exactly when its id differs. So the
/// entries that stay keep their order.
pub proof fn deletion_keeps_order(
    cs: Seq<ConnectionConfig>,
    ds: Seq<ConnectionConfig>,
    c: ConnectionConfig,
    id: Seq<char>,
)
    ensures
        without_id(cs + ds, id) == without_id(cs, id) + without_id(ds, id),
        without_id(seq![c], id) == if c.id@ == id {
            Seq::<ConnectionConfig>::empty()
        } else {
            seq![c]
        },
        without_id(Seq::<ConnectionConfig>::empty(), id) == Seq::<ConnectionConfig>::empty(),
{
    let f = id_differs(id);
    Seq::filter_distributes_over_add(cs, ds, f);
    Seq::<ConnectionConfig>::empty().lemma_filter_push(c, f);
    reveal(Seq::filter);
    assert(Seq::<ConnectionConfig>::empty().filter(f) =~= Seq::<ConnectionConfig>::empty());
    assert(Seq::<ConnectionConfig>::empty().push(c) =~= seq![c]);
    assert(Seq::<ConnectionConfig>::empty().push(c) =~= seq![c]);
}

} // verus!

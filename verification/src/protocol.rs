//! The allocation protocol: the one externally visible operation.
//!
//! A caller hands in the durable store's current text (or nothing, when
//! the store does not exist yet), a namespace and a key.  A known key
//! returns its stored UUID and asks for no write; an unknown key is bound
//! to a fresh UUID and the caller receives the full text the store must
//! be rewritten with.  Text that does not decode is refused: a corrupt
//! store is never silently replaced.

use vstd::prelude::*;

use crate::codec::decode;
use crate::codec::decode_spec;
use crate::codec::encode;
use crate::codec::lemma_store_round_trip;
use crate::codec::model_map;
use crate::codec::model_update;
use crate::codec::pairs_model;
use crate::codec::reg_model;
use crate::codec::FormatError;
use crate::codec::StoreModel;
use crate::registry::Namespace;
use crate::wrappers::fresh_uuid;

verus! {

/// What one allocation returns: the key's UUID and, when a fresh entry
/// was made, the full text the store must be rewritten with.
pub struct Allocation {
    pub id: u128,
    pub rewritten: Option<String>,
}

/// The store text an allocation runs against: the file's contents, or
/// empty when the store does not exist yet.
pub open spec fn contents_text(contents: Option<&str>) -> Seq<char> {
    match contents {
        Some(t) => t@,
        None => Seq::empty(),
    }
}

/// What allocating does to a store's model: a known key returns its
/// stored UUID and changes nothing; an unknown key is bound to `fresh`.
pub open spec fn alloc_spec(m: StoreModel, ns: Namespace, key: Seq<char>, fresh: u128) -> (
    u128,
    StoreModel,
) {
    if model_map(m, ns).contains_key(key) {
        (model_map(m, ns)[key], m)
    } else {
        (fresh, model_update(m, ns, model_map(m, ns).insert(key, fresh)))
    }
}

/// A successful allocation: the store text decodes to some model, the
/// returned UUID is what `alloc_spec` gives for it, no write happens on a
/// hit, and on a miss the rewritten text denotes exactly the updated
/// model.
pub open spec fn alloc_post(
    t: Seq<char>,
    ns: Namespace,
    key: Seq<char>,
    fresh: u128,
    id: u128,
    rewritten: Option<String>,
) -> bool {
    decode_spec(t) matches Some(m) && {
        &&& id == alloc_spec(m, ns, key, fresh).0
        &&& (model_map(m, ns).contains_key(key) ==> rewritten is None)
        &&& (!model_map(m, ns).contains_key(key) ==> (rewritten matches Some(out)
            && decode_spec(out@) == Some(alloc_spec(m, ns, key, fresh).1)))
    }
}

/// Allocates a UUID for `key` in `ns` against the given store text, the
/// fresh UUID to use on a miss supplied by the caller.
pub fn allocate_with(contents: Option<&str>, ns: Namespace, key: &str, fresh: u128) -> (r: Result<
    Allocation,
    FormatError,
>)
    ensures
        match r {
            Ok(a) => alloc_post(contents_text(contents), ns, key@, fresh, a.id, a.rewritten),
            Err(_) => decode_spec(contents_text(contents)) is None,
        },
{
    let text: &str = match contents {
        Some(t) => t,
        None => "",
    };
    proof {
        reveal_strlit("");
        assert(""@ =~= Seq::<char>::empty());
        assert(text@ == contents_text(contents));
    }
    let mut reg = match decode(text) {
        Ok(reg) => reg,
        Err(e) => {
            return Err(e);
        },
    };
    let ghost m = reg_model(reg);
    match reg.lookup(ns, key) {
        Some(u) => Ok(Allocation { id: u, rewritten: None }),
        None => {
            reg.insert(ns, key, fresh);
            let out = encode(&reg);
            proof {
                lemma_store_round_trip(reg.tag_pairs(), reg.type_pairs());
                assert(pairs_model(reg.tag_pairs(), reg.type_pairs()) == reg_model(reg));
                assert(reg_model(reg) == model_update(
                    m,
                    ns,
                    model_map(m, ns).insert(key@, fresh),
                ));
            }
            Ok(Allocation { id: fresh, rewritten: Some(out) })
        },
    }
}

/// Allocates a UUID for `key` in `ns` against the given store text,
/// generating the fresh UUID itself.  Whatever value the generator
/// returned: a known key keeps its stored UUID and asks for no write, an
/// unknown key is bound to the returned UUID in the rewritten text.
pub fn allocate(contents: Option<&str>, ns: Namespace, key: &str) -> (r: Result<
    Allocation,
    FormatError,
>)
    ensures
        match r {
            Ok(a) => alloc_post(contents_text(contents), ns, key@, a.id, a.id, a.rewritten),
            Err(_) => decode_spec(contents_text(contents)) is None,
        },
{
    let fresh = fresh_uuid();
    allocate_with(contents, ns, key, fresh)
}

/// The qualified key a type name is registered under: the scope prefix
/// (the type's module path, possibly empty) and the bare name joined with
/// the `::` separator.
pub fn type_key(prefix: &str, name: &str) -> (r: String)
    ensures
        r@ == prefix@ + "::"@ + name@,
{
    let mut out = prefix.to_owned();
    out.append("::");
    out.append(name);
    out
}

/// A sample type registered through the type namespace, as the
/// accompanying program does: its store key is its qualified name, built
/// by `type_key` from an (empty) module path and the type's name.
pub struct Test;

impl Test {
    /// The key under which this type's identifier is registered.
    pub fn key() -> (r: String)
        ensures
            r@ == "::Test"@,
    {
        let r = type_key("", "Test");
        proof {
            reveal_strlit("");
            reveal_strlit("::");
            reveal_strlit("Test");
            reveal_strlit("::Test");
            assert(r@ =~= "::Test"@);
        }
        r
    }
}

/// Idempotence: against the store state the first allocation leaves, a
/// second allocation for the same key returns the first allocation's UUID
/// and leaves the store unchanged, whatever fresh value the second call
/// drew: no duplicate write ever happens.
pub proof fn lemma_allocate_idempotent(
    m: StoreModel,
    ns: Namespace,
    key: Seq<char>,
    f1: u128,
    f2: u128,
)
    ensures
        alloc_spec(alloc_spec(m, ns, key, f1).1, ns, key, f2).0 == alloc_spec(m, ns, key, f1).0,
        alloc_spec(alloc_spec(m, ns, key, f1).1, ns, key, f2).1 == alloc_spec(m, ns, key, f1).1,
{
}

/// Namespace isolation: an allocation touches only its own namespace's
/// mapping; the other namespace's mapping is exactly what it was.
pub proof fn lemma_namespace_isolation(m: StoreModel, ns: Namespace, key: Seq<char>, f: u128)
    ensures
        model_map(alloc_spec(m, ns, key, f).1, ns.other()) == model_map(m, ns.other()),
{
}

/// Namespace independence: after allocating the same key in the tag
/// namespace and then in the type namespace, each namespace still answers
/// with its own UUID, each independently stable.
pub proof fn lemma_namespace_independent(
    m: StoreModel,
    key: Seq<char>,
    f1: u128,
    f2: u128,
    f3: u128,
    f4: u128,
)
    ensures
        ({
            let first = alloc_spec(m, Namespace::Tag, key, f1);
            let second = alloc_spec(first.1, Namespace::Type, key, f2);
            &&& alloc_spec(second.1, Namespace::Tag, key, f3).0 == first.0
            &&& alloc_spec(second.1, Namespace::Type, key, f4).0 == second.0
        }),
{
}

/// A mapping, once made, is never altered or removed: any key already
/// bound, in either namespace, keeps its UUID through any later
/// allocation.
pub proof fn lemma_existing_mapping_preserved(
    m: StoreModel,
    ns: Namespace,
    key: Seq<char>,
    f: u128,
    ns2: Namespace,
    key2: Seq<char>,
)
    requires
        model_map(m, ns2).contains_key(key2),
    ensures
        model_map(alloc_spec(m, ns, key, f).1, ns2).contains_key(key2),
        model_map(alloc_spec(m, ns, key, f).1, ns2)[key2] == model_map(m, ns2)[key2],
{
}

/// Fresh-store bootstrap: allocating against the empty store model binds
/// exactly the one key, in the chosen namespace, to the fresh UUID; the
/// other namespace stays empty.
pub proof fn lemma_fresh_store_bootstrap(ns: Namespace, key: Seq<char>, f: u128)
    ensures
        alloc_spec(crate::codec::empty_model(), ns, key, f).0 == f,
        model_map(alloc_spec(crate::codec::empty_model(), ns, key, f).1, ns) == map![key => f],
        model_map(alloc_spec(crate::codec::empty_model(), ns, key, f).1, ns.other())
            == Map::<Seq<char>, u128>::empty(),
{
    assert(Map::<Seq<char>, u128>::empty().insert(key, f) =~= map![key => f]);
}

} // verus!


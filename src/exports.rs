use object::{Object, ObjectSymbol};
use vstd::prelude::*;

verus! {

/// The names of the symbols that the shared library stored as `data` exports,
/// in the order that object lists them; `None` when object cannot parse the
/// file or read its exports.
pub uninterp spec fn exports_of(data: Seq<u8>) -> Option<Seq<Seq<u8>>>;

/// Relies on object::File::parse and Object::exports (with Export::name) to
/// list the names of the symbols that a shared library defines in its
/// dynamic symbol table.
#[verifier::external_body]
fn exported_names(data: &Vec<u8>) -> (r: Option<Vec<Vec<u8>>>)
    ensures
        match r {
            Some(v) => exports_of(data@) == Some(v.deep_view()),
            None => exports_of(data@) is None,
        },
{
    let file = object::File::parse(&data[..]).ok()?;
    let exports = file.exports().ok()?;
    Some(exports.iter().map(|export| export.name().to_vec()).collect())
}

/// The name starts with `roc_`, the prefix of the functions an application provides.
pub open spec fn has_roc_prefix(name: Seq<u8>) -> bool {
    name.len() >= 4 && name[0] == 0x72 && name[1] == 0x6f && name[2] == 0x63 && name[3] == 0x5f
}

pub open spec fn roc_prefixed() -> spec_fn(Seq<u8>) -> bool {
    |name: Seq<u8>| has_roc_prefix(name)
}

/// A copy of `v`.
fn copy_bytes(v: &Vec<u8>) -> (r: Vec<u8>)
    ensures
        r@ == v@,
{
    let mut r: Vec<u8> = Vec::new();
    let mut i: usize = 0;
    while i < v.len()
        invariant
            i <= v@.len(),
            r@ == v@.subrange(0, i as int),
        decreases v@.len() - i,
    {
        r.push(v[i]);
        i = i + 1;
        assert(r@ =~= v@.subrange(0, i as int));
    }
    assert(r@ =~= v@);
    r
}

/// The names among `names` that start with `roc_`, in order.
pub fn roc_names(names: &Vec<Vec<u8>>) -> (r: Vec<Vec<u8>>)
    ensures
        r.deep_view() == names.deep_view().filter(roc_prefixed()),
{
    let ghost all = names.deep_view();
    let mut r: Vec<Vec<u8>> = Vec::new();
    let mut i: usize = 0;
    while i < names.len()
        invariant
            i <= names@.len(),
            all == names.deep_view(),
            r.deep_view() == all.subrange(0, i as int).filter(roc_prefixed()),
        decreases names@.len() - i,
    {
        let name = &names[i];
        proof {
            assert(all.subrange(0, i + 1) =~= all.subrange(0, i as int).push(all[i as int]));
            all.subrange(0, i as int).lemma_filter_push(all[i as int], roc_prefixed());
            assert(all[i as int] == name@);
        }
        if name.len() >= 4 && name[0] == 0x72 && name[1] == 0x6f && name[2] == 0x63 && name[3] == 0x5f {
            let ghost before = r.deep_view();
            r.push(copy_bytes(name));
            proof {
                assert(r.deep_view() =~= before.push(name@));
            }
        }
        i = i + 1;
    }
    assert(all.subrange(0, all.len() as int) =~= all);
    r
}

/// The functions that the application provides, by the exports of the dummy
/// shared library stored as `data`: the exported names that start with
/// `roc_`. `None` when the library cannot be read.
pub fn roc_application_functions(data: &Vec<u8>) -> (r: Option<Vec<Vec<u8>>>)
    ensures
        match exports_of(data@) {
            Some(names) => r is Some && r->0.deep_view() == names.filter(roc_prefixed()),
            None => r is None,
        },
{
    match exported_names(data) {
        Some(names) => Some(roc_names(&names)),
        None => None,
    }
}

/// The symbols of the executable stored as `data`, in the order that object
/// lists them: each name (`None` where it cannot be read), address, and
/// whether the symbol is a definition; `None` when object cannot parse the file.
pub uninterp spec fn symbols_of(data: Seq<u8>) -> Option<Seq<(Option<Seq<u8>>, u64, bool)>>;

/// Relies on object::File::parse and Object::symbols, with ObjectSymbol::name,
/// address and is_definition, to list the symbol table of an executable.
#[verifier::external_body]
fn symbol_list(data: &Vec<u8>) -> (r: Option<Vec<(Option<Vec<u8>>, u64, bool)>>)
    ensures
        match r {
            Some(v) => symbols_of(data@) == Some(v.deep_view()),
            None => symbols_of(data@) is None,
        },
{
    let file = object::File::parse(&data[..]).ok()?;
    let symbols = file.symbols().map(|sym| (sym.name().ok().map(|n| n.as_bytes().to_vec()), sym.address(), sym.is_definition()));
    Some(symbols.collect())
}

pub open spec fn roc_memcpy_name() -> Seq<u8> {
    seq![0x72u8, 0x6f, 0x63, 0x5f, 0x6d, 0x65, 0x6d, 0x63, 0x70, 0x79]
}

pub open spec fn roc_memset_name() -> Seq<u8> {
    seq![0x72u8, 0x6f, 0x63, 0x5f, 0x6d, 0x65, 0x6d, 0x73, 0x65, 0x74]
}

/// What a defined `roc_` symbol publishes: itself, and the host's `memcpy`
/// and `memset` also under their bare names.
pub open spec fn published(name: Seq<u8>, addr: u64) -> Seq<(Seq<u8>, u64)> {
    if name == roc_memcpy_name() {
        seq![(name.subrange(4, 10), addr), (name, addr)]
    } else if name == roc_memset_name() {
        seq![(name.subrange(4, 10), addr), (name, addr)]
    } else {
        seq![(name, addr)]
    }
}

/// The host functions that an application may call, by the symbols `syms`.
pub open spec fn harvested(syms: Seq<(Option<Seq<u8>>, u64, bool)>) -> Seq<(Seq<u8>, u64)>
    decreases syms.len(),
{
    if syms.len() == 0 {
        Seq::empty()
    } else {
        let prev = harvested(syms.drop_last());
        let (name, addr, defined) = syms.last();
        match name {
            Some(n) => if defined && has_roc_prefix(n) {
                prev + published(n, addr)
            } else {
                prev
            },
            None => prev,
        }
    }
}

/// Whether `v` holds the bytes `w`.
fn eq_bytes(v: &Vec<u8>, w: &Vec<u8>) -> (r: bool)
    ensures
        r == (v@ == w@),
{
    if v.len() != w.len() {
        return false;
    }
    let mut i: usize = 0;
    while i < v.len()
        invariant
            i <= v@.len(),
            v@.len() == w@.len(),
            forall|j: int| 0 <= j < i ==> v@[j] == w@[j],
        decreases v@.len() - i,
    {
        if v[i] != w[i] {
            return false;
        }
        i = i + 1;
    }
    assert(v@ =~= w@);
    true
}

/// The bytes of `roc_` followed by `rest`.
fn roc_name(rest: &Vec<u8>) -> (r: Vec<u8>)
    ensures
        r@ == seq![0x72u8, 0x6f, 0x63, 0x5f] + rest@,
{
    let mut r: Vec<u8> = Vec::new();
    r.push(0x72);
    r.push(0x6f);
    r.push(0x63);
    r.push(0x5f);
    let mut i: usize = 0;
    while i < rest.len()
        invariant
            i <= rest@.len(),
            r@ == seq![0x72u8, 0x6f, 0x63, 0x5f] + rest@.subrange(0, i as int),
        decreases rest@.len() - i,
    {
        r.push(rest[i]);
        i = i + 1;
        assert(r@ =~= seq![0x72u8, 0x6f, 0x63, 0x5f] + rest@.subrange(0, i as int));
    }
    assert(rest@.subrange(0, rest@.len() as int) =~= rest@);
    r
}

fn memcpy_name() -> (r: Vec<u8>)
    ensures
        r@ == roc_memcpy_name().subrange(4, 10),
{
    let mut r: Vec<u8> = Vec::new();
    r.push(0x6d);
    r.push(0x65);
    r.push(0x6d);
    r.push(0x63);
    r.push(0x70);
    r.push(0x79);
    assert(r@ =~= roc_memcpy_name().subrange(4, 10));
    r
}

fn memset_name() -> (r: Vec<u8>)
    ensures
        r@ == roc_memset_name().subrange(4, 10),
{
    let mut r: Vec<u8> = Vec::new();
    r.push(0x6d);
    r.push(0x65);
    r.push(0x6d);
    r.push(0x73);
    r.push(0x65);
    r.push(0x74);
    assert(r@ =~= roc_memset_name().subrange(4, 10));
    r
}

/// The host functions that an application may call: each defined symbol
/// whose name starts with `roc_`, with its address, and `roc_memcpy` and
/// `roc_memset` also as `memcpy` and `memset`.
pub fn roc_function_addresses(syms: &Vec<(Option<Vec<u8>>, u64, bool)>) -> (r: Vec<(Vec<u8>, u64)>)
    ensures
        r.deep_view() == harvested(syms.deep_view()),
{
    let ghost all = syms.deep_view();
    let memcpy = memcpy_name();
    let memset = memset_name();
    let roc_memcpy = roc_name(&memcpy);
    let roc_memset = roc_name(&memset);
    proof {
        assert(roc_memcpy@ =~= roc_memcpy_name());
        assert(roc_memset@ =~= roc_memset_name());
    }
    let mut r: Vec<(Vec<u8>, u64)> = Vec::new();
    let mut i: usize = 0;
    while i < syms.len()
        invariant
            i <= syms@.len(),
            all == syms.deep_view(),
            roc_memcpy@ == roc_memcpy_name(),
            roc_memset@ == roc_memset_name(),
            memcpy@ == roc_memcpy_name().subrange(4, 10),
            memset@ == roc_memset_name().subrange(4, 10),
            r.deep_view() == harvested(all.subrange(0, i as int)),
        decreases syms@.len() - i,
    {
        let ghost before = r.deep_view();
        proof {
            assert(all.subrange(0, i + 1).drop_last() =~= all.subrange(0, i as int));
            assert(all.subrange(0, i + 1).last() == all[i as int]);
        }
        let entry = &syms[i];
        proof {
            assert(all[i as int] == syms@[i as int].deep_view());
        }
        match &entry.0 {
            Some(name) => {
                proof {
                    assert(name.deep_view() =~= name@);
                }
                if entry.2 && name.len() >= 4 && name[0] == 0x72 && name[1] == 0x6f && name[2] == 0x63 && name[3] == 0x5f {
                    if eq_bytes(name, &roc_memcpy) {
                        let alias = copy_bytes(&memcpy);
                        proof {
                            assert(alias.deep_view() =~= alias@);
                        }
                        r.push((alias, entry.1));
                    } else if eq_bytes(name, &roc_memset) {
                        let alias = copy_bytes(&memset);
                        proof {
                            assert(alias.deep_view() =~= alias@);
                        }
                        r.push((alias, entry.1));
                    }
                    let own = copy_bytes(name);
                    proof {
                        assert(own.deep_view() =~= own@);
                    }
                    r.push((own, entry.1));
                    proof {
                        assert(r.deep_view() =~= before + published(name@, entry.1));
                    }
                }
            },
            None => {},
        }
        i = i + 1;
    }
    assert(all.subrange(0, all.len() as int) =~= all);
    r
}

/// The host functions that the executable stored as `data` offers an
/// application; `None` when the executable cannot be read.
pub fn host_function_addresses(data: &Vec<u8>) -> (r: Option<Vec<(Vec<u8>, u64)>>)
    ensures
        match symbols_of(data@) {
            Some(syms) => r is Some && r->0.deep_view() == harvested(syms),
            None => r is None,
        },
{
    match symbol_list(data) {
        Some(syms) => Some(roc_function_addresses(&syms)),
        None => None,
    }
}

} // verus!

//! Mount arguments `HOST[:GUEST]`: where a host path appears in the guest.
use vstd::prelude::*;
use crate::text::{ascii_bytes, dec_string, decimal_string};

verus! {

/// A host path and the guest path it is mounted at.
#[derive(Debug, Clone)]
pub struct MountSpec {
    /// The host path, resolved to an absolute path without links.
    pub host_path: Vec<u8>,
    /// The absolute path in the guest.
    pub guest_path: Vec<u8>,
}

impl View for MountSpec {
    type V = (Seq<u8>, Seq<u8>);

    open spec fn view(&self) -> (Seq<u8>, Seq<u8>) {
        (self.host_path@, self.guest_path@)
    }
}

/// Why a mount argument was refused; `index` is its position among the
/// mount arguments.
#[derive(Clone, Copy, Debug, PartialEq, Eq, Structural)]
pub enum MountError {
    /// Nothing stands before the colon.
    EmptyHost { index: usize },
    /// The host path does not resolve (it does not exist, or cannot be read).
    Unresolvable { index: usize },
}

/// Whether `raw` holds a colon.
pub open spec fn has_sep(raw: Seq<u8>) -> bool {
    exists|i: int| 0 <= i < raw.len() && raw[i] == 58u8
}

/// The position of the first colon.
pub open spec fn first_sep(raw: Seq<u8>) -> int {
    choose|i: int| 0 <= i < raw.len() && raw[i] == 58u8 && forall|j: int| 0 <= j < i ==> raw[j] != 58u8
}

/// The host part of a mount argument: what stands before the first colon,
/// the whole argument when it has none.
pub open spec fn host_part(raw: Seq<u8>) -> Seq<u8> {
    if has_sep(raw) {
        raw.take(first_sep(raw))
    } else {
        raw
    }
}

/// The guest part of a mount argument: what follows the first colon, empty
/// when it has none.
pub open spec fn guest_part(raw: Seq<u8>) -> Seq<u8> {
    if has_sep(raw) {
        raw.skip(first_sep(raw) + 1)
    } else {
        Seq::empty()
    }
}

/// The guest path of the mount at `index` whose guest part is `guest`:
/// `/mnt/host` for the first mount without one, `/mnt/host` and the index
/// for a later one; a relative path is taken from the root.
pub open spec fn guest_mount_path(guest: Seq<u8>, index: nat) -> Seq<u8> {
    if guest.len() == 0 {
        if index == 0 {
            ascii_bytes("/mnt/host"@)
        } else {
            ascii_bytes("/mnt/host"@) + ascii_bytes(dec_string(index))
        }
    } else if guest[0] == 47u8 {
        guest
    } else {
        seq![47u8] + guest
    }
}

/// The mount the argument at `index` describes, given what its host part
/// resolved to.
pub open spec fn mount_of(raw: Seq<u8>, index: usize, resolved: Option<Seq<u8>>) -> Result<(Seq<u8>, Seq<u8>), MountError> {
    if host_part(raw).len() == 0 {
        Err(MountError::EmptyHost { index })
    } else {
        match resolved {
            None => Err(MountError::Unresolvable { index }),
            Some(host) => Ok((host, guest_mount_path(guest_part(raw), index as nat))),
        }
    }
}

/// The mounts of all arguments in order, or the error of the first that
/// fails.
pub open spec fn mounts_of(raws: Seq<Seq<u8>>, resolved: Seq<Option<Seq<u8>>>) -> Result<Seq<(Seq<u8>, Seq<u8>)>, MountError>
    decreases raws.len(),
{
    if raws.len() == 0 {
        Ok(Seq::empty())
    } else {
        let n = (raws.len() - 1) as int;
        match mounts_of(raws.drop_last(), resolved.take(n)) {
            Err(e) => Err(e),
            Ok(done) => match mount_of(raws.last(), n as usize, resolved[n]) {
                Ok(m) => Ok(done.push(m)),
                Err(e) => Err(e),
            },
        }
    }
}

/// The resolved host paths as plain values.
pub open spec fn resolved_view(v: Seq<Option<Vec<u8>>>) -> Seq<Option<Seq<u8>>> {
    v.map_values(
        |o: Option<Vec<u8>>|
            match o {
                Some(p) => Some(p@),
                None => None,
            },
    )
}

/// The mounts as plain values.
pub open spec fn specs_view(v: Seq<MountSpec>) -> Seq<(Seq<u8>, Seq<u8>)> {
    v.map_values(|m: MountSpec| m@)
}

fn copy_range(s: &[u8], a: usize, b: usize) -> (r: Vec<u8>)
    requires
        a <= b <= s@.len(),
    ensures
        r@ == s@.subrange(a as int, b as int),
{
    let mut out: Vec<u8> = Vec::new();
    let mut i = a;
    while i < b
        invariant
            a <= i <= b,
            b <= s@.len(),
            out@ == s@.subrange(a as int, i as int),
        decreases b - i,
    {
        out.push(s[i]);
        i = i + 1;
        assert(out@ =~= s@.subrange(a as int, i as int));
    }
    out
}

/// Position of the first colon, or the length when there is none.
fn find_sep(raw: &[u8]) -> (r: usize)
    ensures
        r <= raw@.len(),
        r < raw@.len() ==> has_sep(raw@) && first_sep(raw@) == r,
        r == raw@.len() ==> !has_sep(raw@),
{
    let mut i: usize = 0;
    while i < raw.len() && raw[i] != 58u8
        invariant
            i <= raw@.len(),
            forall|j: int| 0 <= j < i ==> raw@[j] != 58u8,
        decreases raw@.len() - i,
    {
        i = i + 1;
    }
    proof {
        if i < raw@.len() {
            let s = raw@;
            assert(0 <= i < s.len() && s[i as int] == 58u8 && forall|j: int| 0 <= j < i ==> s[j] != 58u8);
            let f = first_sep(s);
            if f < i {
                assert(s[f] != 58u8);
            }
            if f > i {
                assert(s[i as int] != 58u8);
            }
        } else {
            if has_sep(raw@) {
                let k = choose|k: int| 0 <= k < raw@.len() && raw@[k] == 58u8;
                assert(raw@[k] != 58u8);
            }
        }
    }
    i
}

/// The host part of a mount argument, the path to resolve on the host.
pub fn mount_host_part(raw: &[u8]) -> (r: Vec<u8>)
    ensures
        r@ == host_part(raw@),
{
    let i = find_sep(raw);
    let r = copy_range(raw, 0, i);
    assert(i == raw@.len() ==> raw@.subrange(0, i as int) =~= raw@);
    r
}

fn mount_guest_path(raw: &[u8], index: usize) -> (r: Vec<u8>)
    ensures
        r@ == guest_mount_path(guest_part(raw@), index as nat),
{
    let i = find_sep(raw);
    let guest = if i < raw.len() {
        copy_range(raw, i + 1, raw.len())
    } else {
        Vec::new()
    };
    assert(guest@ =~= guest_part(raw@));
    if guest.len() == 0 {
        let mut p = crate::text::str_ascii_bytes("/mnt/host");
        if index > 0 {
            let digits = decimal_string(index as u64);
            let ghost head = p@;
            let mut k: usize = 0;
            while k < digits.len()
                invariant
                    k <= digits@.len(),
                    p@ == head + ascii_bytes(digits@.take(k as int)),
                decreases digits@.len() - k,
            {
                p.push(digits[k] as u8);
                k = k + 1;
                assert(p@ =~= head + ascii_bytes(digits@.take(k as int)));
            }
            assert(digits@.take(digits@.len() as int) =~= digits@);
        }
        p
    } else if guest[0] == 47u8 {
        guest
    } else {
        let mut p: Vec<u8> = Vec::new();
        p.push(47u8);
        crate::bytes::push_all(&mut p, guest.as_slice());
        assert(p@ =~= seq![47u8] + guest@);
        p
    }
}

impl MountSpec {
    /// Reads the mount argument at `index`. `resolved_host` is what its
    /// host part resolved to on the host, `None` when it did not resolve.
    pub fn parse(raw: &[u8], index: usize, resolved_host: Option<Vec<u8>>) -> (r: Result<MountSpec, MountError>)
        ensures
            match r {
                Ok(m) => mount_of(
                    raw@,
                    index,
                    match resolved_host {
                        Some(p) => Some(p@),
                        None => None,
                    },
                ) == Ok::<(Seq<u8>, Seq<u8>), MountError>(m@),
                Err(e) => mount_of(
                    raw@,
                    index,
                    match resolved_host {
                        Some(p) => Some(p@),
                        None => None,
                    },
                ) == Err::<(Seq<u8>, Seq<u8>), MountError>(e),
            },
    {
        let host = mount_host_part(raw);
        if host.len() == 0 {
            return Err(MountError::EmptyHost { index });
        }
        match resolved_host {
            None => Err(MountError::Unresolvable { index }),
            Some(host_path) => {
                let guest_path = mount_guest_path(raw, index);
                Ok(MountSpec { host_path, guest_path })
            },
        }
    }
}

/// Reads all mount arguments in order; `resolved` holds, for each, what its
/// host part resolved to. The first argument that fails gives the error.
pub fn parse_mount_specs(raw_mounts: &[Vec<u8>], resolved: &[Option<Vec<u8>>]) -> (r: Result<Vec<MountSpec>, MountError>)
    requires
        raw_mounts@.len() == resolved@.len(),
    ensures
        match r {
            Ok(v) => mounts_of(crate::overlay::names_view(raw_mounts@), resolved_view(resolved@)) == Ok::<
                Seq<(Seq<u8>, Seq<u8>)>,
                MountError,
            >(specs_view(v@)),
            Err(e) => mounts_of(crate::overlay::names_view(raw_mounts@), resolved_view(resolved@)) == Err::<
                Seq<(Seq<u8>, Seq<u8>)>,
                MountError,
            >(e),
        },
{
    let ghost raws = crate::overlay::names_view(raw_mounts@);
    let ghost res = resolved_view(resolved@);
    let mut out: Vec<MountSpec> = Vec::new();
    let mut i: usize = 0;
    assert(raws.take(0) =~= Seq::<Seq<u8>>::empty());
    assert(specs_view(out@) =~= Seq::<(Seq<u8>, Seq<u8>)>::empty());
    while i < raw_mounts.len()
        invariant
            i <= raw_mounts@.len(),
            raw_mounts@.len() == resolved@.len(),
            raws == crate::overlay::names_view(raw_mounts@),
            res == resolved_view(resolved@),
            mounts_of(raws.take(i as int), res.take(i as int)) == Ok::<Seq<(Seq<u8>, Seq<u8>)>, MountError>(
                specs_view(out@),
            ),
        decreases raw_mounts@.len() - i,
    {
        proof {
            assert(raws.take(i + 1).drop_last() =~= raws.take(i as int));
            assert(res.take(i + 1).take(i as int) =~= res.take(i as int));
            assert(raws.take(i + 1).last() == raw_mounts@[i as int]@);
            assert(res.take(i + 1)[i as int] == res[i as int]);
        }
        let resolved_host = match &resolved[i] {
            Some(p) => Some(crate::overlay::copy_bytes(p.as_slice())),
            None => None,
        };
        match MountSpec::parse(raw_mounts[i].as_slice(), i, resolved_host) {
            Ok(m) => {
                let ghost before = specs_view(out@);
                out.push(m);
                assert(specs_view(out@) =~= before.push(m@));
            },
            Err(e) => {
                proof {
                    lemma_mounts_prefix_err(raws, res, (i + 1) as int, e);
                    assert(raws.take(raws.len() as int) =~= raws);
                    assert(res.take(res.len() as int) =~= res);
                }
                return Err(e);
            },
        }
        i = i + 1;
    }
    assert(raws.take(raws.len() as int) =~= raws);
    assert(res.take(res.len() as int) =~= res);
    Ok(out)
}

/// An error in the first `k` arguments is the error of all of them.
proof fn lemma_mounts_prefix_err(raws: Seq<Seq<u8>>, res: Seq<Option<Seq<u8>>>, k: int, e: MountError)
    requires
        0 <= k <= raws.len(),
        raws.len() == res.len(),
        mounts_of(raws.take(k), res.take(k)) == Err::<Seq<(Seq<u8>, Seq<u8>)>, MountError>(e),
    ensures
        mounts_of(raws, res) == Err::<Seq<(Seq<u8>, Seq<u8>)>, MountError>(e),
    decreases raws.len() - k,
{
    if k < raws.len() {
        let t = raws.take(k + 1);
        assert(t.drop_last() =~= raws.take(k));
        assert(res.take(k + 1).take(k) =~= res.take(k));
        lemma_mounts_prefix_err(raws, res, k + 1, e);
    } else {
        assert(raws.take(k) =~= raws);
        assert(res.take(k) =~= res);
    }
}

proof fn lemma_digit_char(d: nat)
    requires
        d < 10,
    ensures
        ((d + '0' as nat) as char) as int == d + 48,
{
}

proof fn lemma_digit_byte(c: char)
    requires
        48 <= c as int <= 57,
    ensures
        (c as u8) as int == c as int,
{
}

proof fn lemma_dec_string_len(n: nat)
    ensures
        dec_string(n).len() >= 1,
        n >= 10 ==> dec_string(n).len() >= 2,
    decreases n,
{
    if n >= 10 {
        lemma_dec_string_len(n / 10);
    }
}

proof fn lemma_dec_string_digits(n: nat)
    ensures
        forall|k: int| 0 <= k < dec_string(n).len() ==> 48 <= #[trigger] dec_string(n)[k] as int <= 57,
    decreases n,
{
    lemma_digit_char(n % 10);
    if n >= 10 {
        lemma_dec_string_digits(n / 10);
        assert(dec_string(n).drop_last() =~= dec_string(n / 10));
        assert forall|k: int| 0 <= k < dec_string(n).len() implies 48 <= #[trigger] dec_string(n)[k] as int <= 57 by {
            if k < dec_string(n).len() - 1 {
                assert(dec_string(n)[k] == dec_string(n / 10)[k]);
            }
        }
    }
}

proof fn lemma_dec_string_injective(a: nat, b: nat)
    requires
        dec_string(a) == dec_string(b),
    ensures
        a == b,
    decreases a,
{
    lemma_dec_string_len(a);
    lemma_dec_string_len(b);
    lemma_digit_char(a % 10);
    lemma_digit_char(b % 10);
    if a < 10 && b < 10 {
        assert(dec_string(a)[0] == dec_string(b)[0]);
        assert(dec_string(a)[0] as int == a + 48);
        assert(dec_string(b)[0] as int == b + 48);
    } else if a >= 10 && b >= 10 {
        let da = dec_string(a);
        let db = dec_string(b);
        assert(da.last() == db.last());
        assert(da.last() as int == a % 10 + 48);
        assert(db.last() as int == b % 10 + 48);
        assert(da.drop_last() =~= dec_string(a / 10));
        assert(db.drop_last() =~= dec_string(b / 10));
        lemma_dec_string_injective(a / 10, b / 10);
        assert(a == (a / 10) * 10 + a % 10);
        assert(b == (b / 10) * 10 + b % 10);
    } else {
        assert(dec_string(a).len() != dec_string(b).len());
    }
}

/// Law: the mounts given without a guest path are mounted at different
/// places, whatever their positions.
pub proof fn lemma_default_mount_points_distinct(i: nat, j: nat)
    requires
        i != j,
    ensures
        guest_mount_path(Seq::empty(), i) != guest_mount_path(Seq::empty(), j),
{
    let base = ascii_bytes("/mnt/host"@);
    if i > 0 && j > 0 {
        if guest_mount_path(Seq::empty(), i) == guest_mount_path(Seq::empty(), j) {
            let a = ascii_bytes(dec_string(i));
            let b = ascii_bytes(dec_string(j));
            assert((base + a).skip(base.len() as int) =~= a);
            assert((base + b).skip(base.len() as int) =~= b);
            lemma_dec_string_digits(i);
            lemma_dec_string_digits(j);
            assert(dec_string(i) =~= dec_string(j)) by {
                assert(a.len() == b.len());
                assert forall|k: int| 0 <= k < dec_string(i).len() implies dec_string(i)[k] == dec_string(j)[k] by {
                    assert(a[k] == b[k]);
                    lemma_digit_byte(dec_string(i)[k]);
                    lemma_digit_byte(dec_string(j)[k]);
                }
            }
            lemma_dec_string_injective(i, j);
        }
    } else {
        let k = if i > 0 { i } else { j };
        lemma_dec_string_len(k);
        assert((base + ascii_bytes(dec_string(k))).len() != base.len());
    }
}

/// Law: every mount point is an absolute path.
pub proof fn lemma_guest_path_absolute(guest: Seq<u8>, index: nat)
    ensures
        guest_mount_path(guest, index).len() > 0,
        guest_mount_path(guest, index)[0] == 47u8,
{
    reveal_strlit("/mnt/host");
    if guest.len() == 0 && index > 0 {
        let base = ascii_bytes("/mnt/host"@);
        assert((base + ascii_bytes(dec_string(index)))[0] == base[0]);
    }
}

/// Law: reading mount arguments gives one mount for each argument, each at
/// an absolute guest path.
pub proof fn lemma_mounts_absolute(raws: Seq<Seq<u8>>, resolved: Seq<Option<Seq<u8>>>)
    ensures
        mounts_of(raws, resolved) matches Ok(v) ==> {
            &&& v.len() == raws.len()
            &&& forall|i: int| 0 <= i < v.len() ==> (#[trigger] v[i]).1.len() > 0 && v[i].1[0] == 47u8
        },
    decreases raws.len(),
{
    if raws.len() > 0 {
        let n = (raws.len() - 1) as int;
        lemma_mounts_absolute(raws.drop_last(), resolved.take(n));
        lemma_guest_path_absolute(guest_part(raws.last()), (n as usize) as nat);
        match mounts_of(raws.drop_last(), resolved.take(n)) {
            Ok(done) => match mount_of(raws.last(), n as usize, resolved[n]) {
                Ok(m) => {
                    let v = done.push(m);
                    assert forall|i: int| 0 <= i < v.len() implies (#[trigger] v[i]).1.len() > 0 && v[i].1[0]
                        == 47u8 by {
                        if i < done.len() {
                            assert(v[i] == done[i]);
                        }
                    }
                },
                Err(_) => {},
            },
            Err(_) => {},
        }
    }
}

/// Law: reading the mount arguments succeeds exactly when each argument,
/// read at its own position, succeeds, and then gives, in order, for each
/// argument the mount that argument describes; on failure the error is
/// that of the first argument that fails.
pub proof fn lemma_mounts_elementwise(raws: Seq<Seq<u8>>, resolved: Seq<Option<Seq<u8>>>)
    requires
        raws.len() == resolved.len(),
    ensures
        mounts_of(raws, resolved) is Ok <==> forall|i: int|
            0 <= i < raws.len() ==> (#[trigger] mount_of(raws[i], i as usize, resolved[i])) is Ok,
        mounts_of(raws, resolved) matches Ok(v) ==> {
            &&& v.len() == raws.len()
            &&& forall|i: int|
                0 <= i < raws.len() ==> Ok::<(Seq<u8>, Seq<u8>), MountError>(#[trigger] v[i]) == mount_of(
                    raws[i],
                    i as usize,
                    resolved[i],
                )
        },
        mounts_of(raws, resolved) matches Err(e) ==> exists|k: int|
            0 <= k < raws.len() && mount_of(raws[k], k as usize, resolved[k]) == Err::<(Seq<u8>, Seq<u8>), MountError>(e)
                && forall|j: int| 0 <= j < k ==> (#[trigger] mount_of(raws[j], j as usize, resolved[j])) is Ok,
    decreases raws.len(),
{
    if raws.len() > 0 {
        let n = (raws.len() - 1) as int;
        let ri = raws.drop_last();
        let si = resolved.take(n);
        lemma_mounts_elementwise(ri, si);
        assert forall|i: int| 0 <= i < n implies #[trigger] mount_of(raws[i], i as usize, resolved[i]) == mount_of(
            ri[i],
            i as usize,
            si[i],
        ) by {
            assert(ri[i] == raws[i]);
            assert(si[i] == resolved[i]);
        }
        match mounts_of(ri, si) {
            Ok(done) => {
                match mount_of(raws.last(), n as usize, resolved[n]) {
                    Ok(m) => {
                        let v = done.push(m);
                        assert forall|i: int| 0 <= i < raws.len() implies Ok::<(Seq<u8>, Seq<u8>), MountError>(
                            #[trigger] v[i],
                        ) == mount_of(raws[i], i as usize, resolved[i]) by {
                            if i < n {
                                assert(v[i] == done[i]);
                                assert(Ok::<(Seq<u8>, Seq<u8>), MountError>(done[i]) == mount_of(ri[i], i as usize, si[i]));
                            }
                        }
                    },
                    Err(e) => {
                        assert(mount_of(raws[n], n as usize, resolved[n]) == Err::<(Seq<u8>, Seq<u8>), MountError>(e));
                        assert forall|j: int| 0 <= j < n implies (#[trigger] mount_of(raws[j], j as usize, resolved[j])) is Ok by {
                            assert(mount_of(ri[j], j as usize, si[j]) is Ok);
                        }
                    },
                }
            },
            Err(e) => {
                let k = choose|k: int|
                    0 <= k < ri.len() && mount_of(ri[k], k as usize, si[k]) == Err::<(Seq<u8>, Seq<u8>), MountError>(e)
                        && forall|j: int| 0 <= j < k ==> (#[trigger] mount_of(ri[j], j as usize, si[j])) is Ok;
                assert(mount_of(raws[k], k as usize, resolved[k]) == Err::<(Seq<u8>, Seq<u8>), MountError>(e));
                assert forall|j: int| 0 <= j < k implies (#[trigger] mount_of(raws[j], j as usize, resolved[j])) is Ok by {
                    assert(mount_of(ri[j], j as usize, si[j]) is Ok);
                }
                assert(!(mount_of(raws[k], k as usize, resolved[k]) is Ok));
            },
        }
    }
}

} // verus!

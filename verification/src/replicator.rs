//! Replication metadata and its wire codec: the argument list of the
//! `UMCTL SETREPL` command, together with a proof that encoding and then
//! parsing an argument list gives back the same metadata.

use vstd::prelude::*;
use vstd::string::StrSliceExecFns;
use vstd::string::StringExecFns;

use crate::strfmt::{all_digits, dec_str, dec_val, lemma_dec_roundtrip, upper_of};

verus! {

/// A RESP value, as far as this codec needs it.
pub enum Resp {
    Error(Vec<u8>),
    Simple(Vec<u8>),
    Integer(Vec<u8>),
    Bulk(BulkStr),
    Arr(Array),
}

pub enum BulkStr {
    Nil,
    Str(Vec<u8>),
}

pub enum Array {
    Nil,
    Arr(Vec<Resp>),
}

/// A replication peer: one node and the proxy in front of it.
#[derive(Clone, Debug, PartialEq)]
pub struct ReplPeer {
    pub node_address: String,
    pub proxy_address: String,
}

/// Flags of the replication mapping; only `force` exists today.
#[derive(Clone, Copy, Debug, PartialEq, Eq, Structural)]
pub struct DBMapFlags {
    pub force: bool,
}

impl DBMapFlags {
    /// Read the flag argument; any casing of `force` sets it.
    pub fn from_arg(arg: &str) -> (r: DBMapFlags)
        ensures
            r.force == (upper_of(arg@) == force_lit()),
    {
        proof {
            reveal_strlit("FORCE");
            assert(("FORCE")@ =~= force_lit());
        }
        DBMapFlags { force: crate::strfmt::upper_eq(arg, "FORCE") }
    }

    /// Print the flag argument, upper case.
    pub fn to_arg(&self) -> (r: String)
        ensures
            r@ == flag_str(self.force),
    {
        proof {
            reveal_strlit("FORCE");
            reveal_strlit("NOFLAG");
            assert(("FORCE")@ =~= force_lit());
            assert(("NOFLAG")@ =~= noflag_lit());
        }
        if self.force {
            String::from_str("FORCE")
        } else {
            String::from_str("NOFLAG")
        }
    }
}

/// A master and its replicas.
#[derive(Clone, Debug, PartialEq)]
pub struct MasterMeta {
    pub db_name: String,
    pub master_node_address: String,
    pub replicas: Vec<ReplPeer>,
}

/// A replica and its masters.
#[derive(Clone, Debug, PartialEq)]
pub struct ReplicaMeta {
    pub db_name: String,
    pub replica_node_address: String,
    pub masters: Vec<ReplPeer>,
}

/// The whole replication mapping a proxy should install.
#[derive(Clone, Debug)]
pub struct ReplicatorMeta {
    pub epoch: u64,
    pub flags: DBMapFlags,
    pub masters: Vec<MasterMeta>,
    pub replicas: Vec<ReplicaMeta>,
}

/// The argument list could not be understood.
#[derive(Clone, Copy, Debug, PartialEq, Eq, Structural)]
pub struct CmdParseError {}

/// Spec model of one peer.
pub ghost struct PeerModel {
    pub node: Seq<char>,
    pub proxy: Seq<char>,
}

/// Spec model of one side of the mapping: a master with its replicas or
/// a replica with its masters.
pub ghost struct SideModel {
    pub db: Seq<char>,
    pub node: Seq<char>,
    pub peers: Seq<PeerModel>,
}

/// Spec model of the whole mapping.
pub ghost struct RMetaModel {
    pub epoch: u64,
    pub force: bool,
    pub masters: Seq<SideModel>,
    pub replicas: Seq<SideModel>,
}

pub open spec fn peer_model(p: ReplPeer) -> PeerModel {
    PeerModel { node: p.node_address@, proxy: p.proxy_address@ }
}

pub open spec fn master_model(m: MasterMeta) -> SideModel {
    SideModel {
        db: m.db_name@,
        node: m.master_node_address@,
        peers: m.replicas@.map_values(|p: ReplPeer| peer_model(p)),
    }
}

pub open spec fn replica_model(m: ReplicaMeta) -> SideModel {
    SideModel {
        db: m.db_name@,
        node: m.replica_node_address@,
        peers: m.masters@.map_values(|p: ReplPeer| peer_model(p)),
    }
}

pub open spec fn meta_model(m: ReplicatorMeta) -> RMetaModel {
    RMetaModel {
        epoch: m.epoch,
        force: m.flags.force,
        masters: m.masters@.map_values(|x: MasterMeta| master_model(x)),
        replicas: m.replicas@.map_values(|x: ReplicaMeta| replica_model(x)),
    }
}

pub open spec fn master_lit() -> Seq<char> {
    seq!['m', 'a', 's', 't', 'e', 'r']
}

pub open spec fn master_up() -> Seq<char> {
    seq!['M', 'A', 'S', 'T', 'E', 'R']
}

pub open spec fn replica_lit() -> Seq<char> {
    seq!['r', 'e', 'p', 'l', 'i', 'c', 'a']
}

pub open spec fn replica_up() -> Seq<char> {
    seq!['R', 'E', 'P', 'L', 'I', 'C', 'A']
}

pub open spec fn force_lit() -> Seq<char> {
    seq!['F', 'O', 'R', 'C', 'E']
}

pub open spec fn noflag_lit() -> Seq<char> {
    seq!['N', 'O', 'F', 'L', 'A', 'G']
}

pub open spec fn flag_str(force: bool) -> Seq<char> {
    if force {
        force_lit()
    } else {
        noflag_lit()
    }
}

/// Encoded arguments of a peer list.
pub open spec fn peers_args(ps: Seq<PeerModel>) -> Seq<Seq<char>>
    decreases ps.len(),
{
    if ps.len() == 0 {
        Seq::empty()
    } else {
        seq![ps.first().node, ps.first().proxy] + peers_args(ps.drop_first())
    }
}

/// Encoded arguments of one side: role, database, node, peer count, then
/// the peers.
pub open spec fn side_args(role: Seq<char>, sd: SideModel) -> Seq<Seq<char>> {
    seq![role, sd.db, sd.node, dec_str(sd.peers.len())] + peers_args(sd.peers)
}

pub open spec fn sides_args(role: Seq<char>, ss: Seq<SideModel>) -> Seq<Seq<char>>
    decreases ss.len(),
{
    if ss.len() == 0 {
        Seq::empty()
    } else {
        side_args(role, ss.first()) + sides_args(role, ss.drop_first())
    }
}

/// The full encoded argument list of a mapping.
pub open spec fn encode_model(m: RMetaModel) -> Seq<Seq<char>> {
    seq![dec_str(m.epoch as nat), flag_str(m.force)] + sides_args(master_lit(), m.masters)
        + sides_args(replica_lit(), m.replicas)
}

/// Peers read back from `cnt` pairs of arguments starting at `i`.
pub open spec fn peers_of(args: Seq<Seq<char>>, i: int, cnt: int) -> Seq<PeerModel>
    decreases cnt,
{
    if cnt <= 0 {
        Seq::empty()
    } else {
        seq![PeerModel { node: args[i], proxy: args[i + 1] }] + peers_of(args, i + 2, cnt - 1)
    }
}

/// Sides read back from the arguments starting at `i`, split by role.
pub open spec fn parse_sides(args: Seq<Seq<char>>, i: int) -> Option<
    (Seq<SideModel>, Seq<SideModel>),
>
    decreases args.len() - i,
{
    if i == args.len() {
        Some((Seq::empty(), Seq::empty()))
    } else if i < 0 || i + 4 > args.len() {
        None
    } else {
        let role = upper_of(args[i]);
        let cnt_s = args[i + 3];
        if !(cnt_s.len() > 0 && all_digits(cnt_s) && 0 <= dec_val(cnt_s) <= u64::MAX) {
            None
        } else {
            let cnt = dec_val(cnt_s);
            if i + 4 + 2 * cnt > args.len() {
                None
            } else {
                let side = SideModel {
                    db: args[i + 1],
                    node: args[i + 2],
                    peers: peers_of(args, i + 4, cnt),
                };
                match parse_sides(args, i + 4 + 2 * cnt) {
                    None => None,
                    Some(tail) => if role == master_up() {
                        Some((seq![side] + tail.0, tail.1))
                    } else if role == replica_up() {
                        Some((tail.0, seq![side] + tail.1))
                    } else {
                        None
                    },
                }
            }
        }
    }
}

/// The mapping read back from a full argument list.
pub open spec fn parse_model(args: Seq<Seq<char>>) -> Option<RMetaModel> {
    if args.len() < 2 {
        None
    } else if !(args[0].len() > 0 && all_digits(args[0]) && dec_val(args[0]) <= u64::MAX) {
        None
    } else {
        match parse_sides(args, 2) {
            None => None,
            Some(t) => Some(
                RMetaModel {
                    epoch: dec_val(args[0]) as u64,
                    force: upper_of(args[1]) == force_lit(),
                    masters: t.0,
                    replicas: t.1,
                },
            ),
        }
    }
}

/// The views of an argument vector.
pub open spec fn args_view(v: Seq<String>) -> Seq<Seq<char>> {
    v.map_values(|s: String| s@)
}


/// Sequence views of pushed arguments.
proof fn lemma_args_view_push(v: Seq<String>, s: String)
    ensures
        args_view(v.push(s)) == args_view(v) + seq![s@],
{
    assert(args_view(v.push(s)) =~= args_view(v) + seq![s@]);
}

/// A peer list encodes into two arguments per peer.
proof fn lemma_peers_args_len(ps: Seq<PeerModel>)
    ensures
        peers_args(ps).len() == 2 * ps.len(),
    decreases ps.len(),
{
    if ps.len() > 0 {
        lemma_peers_args_len(ps.drop_first());
    }
}

/// Appending one more peer to the encoded list.
proof fn lemma_peers_args_snoc(ps: Seq<PeerModel>, i: int)
    requires
        0 <= i < ps.len(),
    ensures
        peers_args(ps.take(i + 1)) == peers_args(ps.take(i)) + seq![ps[i].node, ps[i].proxy],
    decreases i,
{
    if i == 0 {
        assert(ps.take(1).first() == ps[0]);
        assert(ps.take(1).drop_first() =~= Seq::<PeerModel>::empty());
        assert(ps.take(0) =~= Seq::<PeerModel>::empty());
        assert(peers_args(ps.take(1)) =~= peers_args(ps.take(0)) + seq![ps[0].node, ps[0].proxy]);
    } else {
        lemma_peers_args_snoc(ps.drop_first(), i - 1);
        assert(ps.take(i + 1).first() == ps[0]);
        assert(ps.take(i).first() == ps[0]);
        assert(ps.take(i + 1).drop_first() =~= ps.drop_first().take(i));
        assert(ps.take(i).drop_first() =~= ps.drop_first().take(i - 1));
        assert(ps.drop_first()[i - 1] == ps[i]);
        assert(peers_args(ps.take(i + 1)) == seq![ps[0].node, ps[0].proxy] + peers_args(
            ps.drop_first().take(i),
        ));
        assert(peers_args(ps.take(i)) == seq![ps[0].node, ps[0].proxy] + peers_args(
            ps.drop_first().take(i - 1),
        ));
        assert(peers_args(ps.take(i + 1)) =~= peers_args(ps.take(i)) + seq![ps[i].node, ps[i].proxy]);
    }
}

/// Appending one more side to the encoded list.
proof fn lemma_sides_args_snoc(role: Seq<char>, ss: Seq<SideModel>, i: int)
    requires
        0 <= i < ss.len(),
    ensures
        sides_args(role, ss.take(i + 1)) == sides_args(role, ss.take(i)) + side_args(role, ss[i]),
    decreases i,
{
    if i == 0 {
        assert(ss.take(1).first() == ss[0]);
        assert(ss.take(1).drop_first() =~= Seq::<SideModel>::empty());
        assert(ss.take(0) =~= Seq::<SideModel>::empty());
        assert(sides_args(role, ss.take(1)) =~= sides_args(role, ss.take(0)) + side_args(
            role,
            ss[0],
        ));
    } else {
        lemma_sides_args_snoc(role, ss.drop_first(), i - 1);
        assert(ss.take(i + 1).first() == ss[0]);
        assert(ss.take(i).first() == ss[0]);
        assert(ss.take(i + 1).drop_first() =~= ss.drop_first().take(i));
        assert(ss.take(i).drop_first() =~= ss.drop_first().take(i - 1));
        assert(ss.drop_first()[i - 1] == ss[i]);
        assert(sides_args(role, ss.take(i + 1)) =~= sides_args(role, ss.take(i)) + side_args(
            role,
            ss[i],
        ));
    }
}

/// Encode a replication mapping into the `UMCTL SETREPL` argument list,
/// without the two leading command words.
pub fn encode_repl_meta(meta: ReplicatorMeta) -> (r: Vec<String>)
    ensures
        args_view(r@) == encode_model(meta_model(meta)),
{
    let ghost model = meta_model(meta);
    let mut args: Vec<String> = Vec::new();
    args.push(crate::strfmt::u64_to_dec(meta.epoch));
    args.push(meta.flags.to_arg());
    proof {
        assert(args_view(args@) =~= seq![dec_str(model.epoch as nat), flag_str(model.force)]);
        assert(model.masters.take(0) =~= Seq::<SideModel>::empty());
    }
    let nm = meta.masters.len();
    let mut i: usize = 0;
    while i < nm
        invariant
            nm == meta.masters@.len(),
            i <= nm,
            model == meta_model(meta),
            args_view(args@) == seq![dec_str(model.epoch as nat), flag_str(model.force)]
                + sides_args(master_lit(), model.masters.take(i as int)),
        decreases nm - i,
    {
        let ghost args0 = args@;
        proof {
            reveal_strlit("master");
            assert(("master")@ =~= master_lit());
        }
        args.push(String::from_str("master"));
        args.push(meta.masters[i].db_name.clone());
        args.push(meta.masters[i].master_node_address.clone());
        let cnt = meta.masters[i].replicas.len();
        args.push(crate::strfmt::u64_to_dec(cnt as u64));
        let ghost side = model.masters[i as int];
        proof {
            assert(side == master_model(meta.masters@[i as int]));
            assert(side.peers.len() == cnt);
            assert(args_view(args@) =~= args_view(args0) + seq![
                master_lit(),
                side.db,
                side.node,
                dec_str(side.peers.len()),
            ]);
            assert(side.peers.take(0) =~= Seq::<PeerModel>::empty());
            assert(peers_args(side.peers.take(0)) =~= Seq::<Seq<char>>::empty());
        }
        let ghost args1 = args@;
        let mut k: usize = 0;
        while k < cnt
            invariant
                i < meta.masters@.len(),
                cnt == meta.masters@[i as int].replicas@.len(),
                side == master_model(meta.masters@[i as int]),
                side.peers.len() == cnt,
                k <= cnt,
                args_view(args@) == args_view(args1) + peers_args(side.peers.take(k as int)),
            decreases cnt - k,
        {
            let ghost argsk = args@;
            args.push(meta.masters[i].replicas[k].node_address.clone());
            let ghost argsk1 = args@;
            args.push(meta.masters[i].replicas[k].proxy_address.clone());
            proof {
                lemma_args_view_push(argsk, meta.masters@[i as int].replicas@[k as int].node_address);
                lemma_args_view_push(argsk1, meta.masters@[i as int].replicas@[k as int].proxy_address);
                lemma_peers_args_snoc(side.peers, k as int);
                assert(side.peers[k as int] == peer_model(
                    meta.masters@[i as int].replicas@[k as int],
                ));
                assert(args_view(args@) =~= args_view(args1) + peers_args(
                    side.peers.take(k + 1),
                ));
            }
            k = k + 1;
        }
        proof {
            assert(side.peers.take(cnt as int) =~= side.peers);
            lemma_sides_args_snoc(master_lit(), model.masters, i as int);
            assert(args_view(args@) =~= seq![dec_str(model.epoch as nat), flag_str(model.force)]
                + sides_args(master_lit(), model.masters.take(i + 1)));
        }
        i = i + 1;
    }
    proof {
        assert(model.masters.take(nm as int) =~= model.masters);
        assert(model.replicas.take(0) =~= Seq::<SideModel>::empty());
        assert(sides_args(replica_lit(), model.replicas.take(0)) =~= Seq::<Seq<char>>::empty());
    }
    let ghost argsm = args@;
    let nr = meta.replicas.len();
    let mut i2: usize = 0;
    while i2 < nr
        invariant
            nr == meta.replicas@.len(),
            i2 <= nr,
            model == meta_model(meta),
            args_view(argsm) == seq![dec_str(model.epoch as nat), flag_str(model.force)]
                + sides_args(master_lit(), model.masters),
            args_view(args@) == args_view(argsm) + sides_args(
                replica_lit(),
                model.replicas.take(i2 as int),
            ),
        decreases nr - i2,
    {
        let ghost args0 = args@;
        proof {
            reveal_strlit("replica");
            assert(("replica")@ =~= replica_lit());
        }
        args.push(String::from_str("replica"));
        args.push(meta.replicas[i2].db_name.clone());
        args.push(meta.replicas[i2].replica_node_address.clone());
        let cnt = meta.replicas[i2].masters.len();
        args.push(crate::strfmt::u64_to_dec(cnt as u64));
        let ghost side = model.replicas[i2 as int];
        proof {
            assert(side == replica_model(meta.replicas@[i2 as int]));
            assert(side.peers.len() == cnt);
            assert(args_view(args@) =~= args_view(args0) + seq![
                replica_lit(),
                side.db,
                side.node,
                dec_str(side.peers.len()),
            ]);
            assert(side.peers.take(0) =~= Seq::<PeerModel>::empty());
            assert(peers_args(side.peers.take(0)) =~= Seq::<Seq<char>>::empty());
        }
        let ghost args1 = args@;
        let mut k: usize = 0;
        while k < cnt
            invariant
                i2 < meta.replicas@.len(),
                cnt == meta.replicas@[i2 as int].masters@.len(),
                side == replica_model(meta.replicas@[i2 as int]),
                side.peers.len() == cnt,
                k <= cnt,
                args_view(args@) == args_view(args1) + peers_args(side.peers.take(k as int)),
            decreases cnt - k,
        {
            let ghost argsk = args@;
            args.push(meta.replicas[i2].masters[k].node_address.clone());
            let ghost argsk1 = args@;
            args.push(meta.replicas[i2].masters[k].proxy_address.clone());
            proof {
                lemma_args_view_push(argsk, meta.replicas@[i2 as int].masters@[k as int].node_address);
                lemma_args_view_push(argsk1, meta.replicas@[i2 as int].masters@[k as int].proxy_address);
                lemma_peers_args_snoc(side.peers, k as int);
                assert(side.peers[k as int] == peer_model(
                    meta.replicas@[i2 as int].masters@[k as int],
                ));
                assert(args_view(args@) =~= args_view(args1) + peers_args(
                    side.peers.take(k + 1),
                ));
            }
            k = k + 1;
        }
        proof {
            assert(side.peers.take(cnt as int) =~= side.peers);
            lemma_sides_args_snoc(replica_lit(), model.replicas, i2 as int);
            assert(args_view(args@) =~= args_view(argsm) + sides_args(
                replica_lit(),
                model.replicas.take(i2 + 1),
            ));
        }
        i2 = i2 + 1;
    }
    proof {
        assert(model.replicas.take(nr as int) =~= model.replicas);
        assert(args_view(args@) =~= encode_model(model));
    }
    args
}


/// Gluing invariant for the iterative side parser: what the spec parser
/// would say starting from the original position, given what it says
/// from the current one.
pub open spec fn sides_cont(
    av: Seq<Seq<char>>,
    idx: int,
    accm: Seq<SideModel>,
    accr: Seq<SideModel>,
) -> bool {
    match parse_sides(av, idx) {
        None => parse_sides(av, 2) is None,
        Some(t) => parse_sides(av, 2) == Some((accm + t.0, accr + t.1)),
    }
}

/// Parse an `UMCTL SETREPL` argument list (with the two command words
/// already stripped) into a replication mapping.
#[verifier::rlimit(100)]
pub fn parse_repl_args(args: &Vec<String>) -> (r: Result<ReplicatorMeta, CmdParseError>)
    ensures
        r is Ok <==> parse_model(args_view(args@)) is Some,
        r matches Ok(m) ==> parse_model(args_view(args@)) == Some(meta_model(m)),
{
    let ghost av = args_view(args@);
    let len = args.len();
    if len < 2 {
        return Err(CmdParseError {});
    }
    let epoch = match crate::strfmt::parse_u64_dec(args[0].as_str()) {
        None => {
            return Err(CmdParseError {});
        },
        Some(v) => v,
    };
    let flags = DBMapFlags::from_arg(args[1].as_str());
    let mut masters: Vec<MasterMeta> = Vec::new();
    let mut replicas: Vec<ReplicaMeta> = Vec::new();
    let mut idx: usize = 2;
    proof {
        assert(av[0] == args@[0]@);
        assert(av[1] == args@[1]@);
        assert(masters@.map_values(|x: MasterMeta| master_model(x)) =~= Seq::<SideModel>::empty());
        assert(replicas@.map_values(|x: ReplicaMeta| replica_model(x)) =~= Seq::<
            SideModel,
        >::empty());
        if parse_sides(av, 2) is Some {
            let t = parse_sides(av, 2)->0;
            assert(Seq::<SideModel>::empty() + t.0 =~= t.0);
            assert(Seq::<SideModel>::empty() + t.1 =~= t.1);
        }
    }
    while idx < len
        invariant
            len == args@.len(),
            av == args_view(args@),
            2 <= idx <= len,
            sides_cont(
                av,
                idx as int,
                masters@.map_values(|x: MasterMeta| master_model(x)),
                replicas@.map_values(|x: ReplicaMeta| replica_model(x)),
            ),
        decreases len - idx,
    {
        let ghost accm = masters@.map_values(|x: MasterMeta| master_model(x));
        let ghost accr = replicas@.map_values(|x: ReplicaMeta| replica_model(x));
        if len - idx < 4 {
            proof {
                assert(parse_sides(av, idx as int) is None);
            }
            return Err(CmdParseError {});
        }
        let cnt = match crate::strfmt::parse_u64_dec(args[idx + 3].as_str()) {
            None => {
                proof {
                    assert(av[idx + 3] == args@[idx + 3]@);
                    assert(parse_sides(av, idx as int) is None);
                }
                return Err(CmdParseError {});
            },
            Some(v) => v,
        };
        proof {
            assert(av[idx + 3] == args@[idx + 3]@);
            crate::strfmt::lemma_dec_val_nonneg(av[idx + 3]);
        }
        let room = (len - idx - 4) / 2;
        if cnt > room as u64 {
            proof {
                assert(idx + 4 + 2 * dec_val(av[idx + 3]) > len);
                assert(parse_sides(av, idx as int) is None);
            }
            return Err(CmdParseError {});
        }
        let cnt_us = cnt as usize;
        proof {
            assert(idx + 4 + 2 * cnt_us <= len);
        }
        let mut peers: Vec<ReplPeer> = Vec::new();
        let base = idx + 4;
        let mut k: usize = 0;
        proof {
            assert(peers@.map_values(|p: ReplPeer| peer_model(p)) =~= Seq::<PeerModel>::empty());
            assert(peers_of(av, base as int, 0int) =~= Seq::<PeerModel>::empty());
        }
        while k < cnt_us
            invariant
                len == args@.len(),
                av == args_view(args@),
                2 <= idx,
                base == idx + 4,
                base + 2 * cnt_us <= len,
                k <= cnt_us,
                peers@.map_values(|p: ReplPeer| peer_model(p)) == peers_of(
                    av,
                    base as int,
                    k as int,
                ),
                peers@.len() == k,
            decreases cnt_us - k,
        {
            let node = args[base + 2 * k].clone();
            let proxy = args[base + 2 * k + 1].clone();
            let ghost peers0 = peers@;
            peers.push(ReplPeer { node_address: node, proxy_address: proxy });
            proof {
                assert(av[base + 2 * k] == args@[base + 2 * k]@);
                assert(av[base + 2 * k + 1] == args@[base + 2 * k + 1]@);
                lemma_peers_of_snoc(av, base as int, k + 1);
                assert(peers@.map_values(|p: ReplPeer| peer_model(p)) =~= peers_of(
                    av,
                    base as int,
                    k + 1,
                ));
            }
            k = k + 1;
        }
        let next = base + 2 * cnt_us;
        let db_name = args[idx + 1].clone();
        let node_address = args[idx + 2].clone();
        proof {
            reveal_strlit("MASTER");
            reveal_strlit("REPLICA");
            assert(("MASTER")@ =~= master_up());
            assert(("REPLICA")@ =~= replica_up());
            assert(av[idx as int] == args@[idx as int]@);
            assert(av[idx + 1] == args@[idx + 1]@);
            assert(av[idx + 2] == args@[idx + 2]@);
        }
        if crate::strfmt::upper_eq(args[idx].as_str(), "MASTER") {
            let ghost m0 = masters@;
            masters.push(
                MasterMeta { db_name, master_node_address: node_address, replicas: peers },
            );
            proof {
                let side = SideModel {
                    db: av[idx + 1],
                    node: av[idx + 2],
                    peers: peers_of(av, idx + 4, cnt_us as int),
                };
                assert(master_model(masters@.last()) == side);
                assert(masters@.map_values(|x: MasterMeta| master_model(x)) =~= accm + seq![side]);
                assert(sides_cont(
                    av,
                    next as int,
                    accm + seq![side],
                    accr,
                )) by {
                    if parse_sides(av, next as int) is Some {
                        let t = parse_sides(av, next as int)->0;
                        assert(parse_sides(av, idx as int) == Some(
                            (seq![side] + t.0, t.1),
                        ));
                        assert(accm + (seq![side] + t.0) =~= (accm + seq![side]) + t.0);
                    } else {
                        assert(parse_sides(av, idx as int) is None);
                    }
                }
            }
            idx = next;
        } else if crate::strfmt::upper_eq(args[idx].as_str(), "REPLICA") {
            let ghost r0 = replicas@;
            replicas.push(
                ReplicaMeta { db_name, replica_node_address: node_address, masters: peers },
            );
            proof {
                let side = SideModel {
                    db: av[idx + 1],
                    node: av[idx + 2],
                    peers: peers_of(av, idx + 4, cnt_us as int),
                };
                assert(replica_model(replicas@.last()) == side);
                assert(replicas@.map_values(|x: ReplicaMeta| replica_model(x)) =~= accr + seq![
                    side,
                ]);
                assert(sides_cont(
                    av,
                    next as int,
                    accm,
                    accr + seq![side],
                )) by {
                    if parse_sides(av, next as int) is Some {
                        let t = parse_sides(av, next as int)->0;
                        assert(upper_of(av[idx as int]) != master_up());
                        assert(parse_sides(av, idx as int) == Some(
                            (t.0, seq![side] + t.1),
                        ));
                        assert(accr + (seq![side] + t.1) =~= (accr + seq![side]) + t.1);
                    } else {
                        assert(parse_sides(av, idx as int) is None);
                    }
                }
            }
            idx = next;
        } else {
            proof {
                assert(upper_of(av[idx as int]) != master_up());
                assert(upper_of(av[idx as int]) != replica_up());
                assert(parse_sides(av, idx as int) is None);
            }
            return Err(CmdParseError {});
        }
    }
    proof {
        assert(parse_sides(av, len as int) == Some(
            (Seq::<SideModel>::empty(), Seq::<SideModel>::empty()),
        ));
        let accm = masters@.map_values(|x: MasterMeta| master_model(x));
        let accr = replicas@.map_values(|x: ReplicaMeta| replica_model(x));
        assert(accm + Seq::<SideModel>::empty() =~= accm);
        assert(accr + Seq::<SideModel>::empty() =~= accr);
        assert(parse_sides(av, 2) == Some((accm, accr)));
    }
    let m = ReplicatorMeta { epoch, flags, masters, replicas };
    proof {
        assert(parse_model(av) == Some(meta_model(m)));
    }
    Ok(m)
}

/// Reading one more peer pair.
proof fn lemma_peers_of_snoc(av: Seq<Seq<char>>, base: int, k: int)
    requires
        k >= 1,
    ensures
        peers_of(av, base, k) == peers_of(av, base, k - 1).push(
            PeerModel { node: av[base + 2 * (k - 1)], proxy: av[base + 2 * (k - 1) + 1] },
        ),
    decreases k,
{
    if k == 1 {
        assert(peers_of(av, base, 1) =~= peers_of(av, base, 0).push(
            PeerModel { node: av[base], proxy: av[base + 1] },
        ));
    } else {
        lemma_peers_of_snoc(av, base + 2, k - 1);
        assert(peers_of(av, base, k) == seq![PeerModel { node: av[base], proxy: av[base + 1] }]
            + peers_of(av, base + 2, k - 1));
        assert(peers_of(av, base, k - 1) == seq![
            PeerModel { node: av[base], proxy: av[base + 1] },
        ] + peers_of(av, base + 2, k - 2));
        assert(peers_of(av, base, k) =~= peers_of(av, base, k - 1).push(
            PeerModel { node: av[base + 2 * (k - 1)], proxy: av[base + 2 * (k - 1) + 1] },
        ));
    }
}


/// The textual arguments carried by the bulk entries of a RESP array
/// from position `i` on; entries that are not valid UTF-8 bulk strings
/// are skipped, as the proxies do.
pub open spec fn extract_args(rs: Seq<Resp>, i: int) -> Seq<Seq<char>>
    decreases rs.len() - i,
{
    if i < 0 || i >= rs.len() {
        Seq::empty()
    } else {
        let rest = extract_args(rs, i + 1);
        match rs[i] {
            Resp::Bulk(BulkStr::Str(b)) => if vstd::utf8::valid_utf8(b@) {
                seq![vstd::utf8::decode_utf8(b@)] + rest
            } else {
                rest
            },
            _ => rest,
        }
    }
}

/// Relies on `core::str::from_utf8`: decodes exactly the valid UTF-8
/// byte strings, to the code points the UTF-8 specification gives.
#[verifier::external_body]
fn bytes_to_string(b: &Vec<u8>) -> (r: Option<String>)
    ensures
        r is Some <==> vstd::utf8::valid_utf8(b@),
        r matches Some(s) ==> s@ == vstd::utf8::decode_utf8(b@),
{
    match core::str::from_utf8(b.as_slice()) {
        Ok(s) => Some(s.to_string()),
        Err(_) => None,
    }
}

/// Parse a whole `UMCTL SETREPL` RESP command, skipping the two command
/// words.
pub fn parse_repl_meta(resp: &Resp) -> (r: Result<ReplicatorMeta, CmdParseError>)
    ensures
        r is Ok <==> (resp matches Resp::Arr(Array::Arr(arr)) && parse_model(
            extract_args(arr@, 2),
        ) is Some),
        r matches Ok(m) ==> (resp matches Resp::Arr(Array::Arr(arr)) && parse_model(
            extract_args(arr@, 2),
        ) == Some(meta_model(m))),
{
    let arr = match resp {
        Resp::Arr(Array::Arr(arr)) => arr,
        _ => {
            return Err(CmdParseError {});
        },
    };
    let n = arr.len();
    let mut args: Vec<String> = Vec::new();
    let mut k: usize = if n < 2 {
        n
    } else {
        2
    };
    proof {
        if n < 2 {
            assert(extract_args(arr@, 2) =~= Seq::<Seq<char>>::empty());
            assert(extract_args(arr@, k as int) =~= Seq::<Seq<char>>::empty());
        }
        assert(args_view(args@) =~= Seq::<Seq<char>>::empty());
        assert(extract_args(arr@, 2) =~= args_view(args@) + extract_args(arr@, k as int));
    }
    while k < n
        invariant
            n == arr@.len(),
            k <= n,
            extract_args(arr@, 2) == args_view(args@) + extract_args(arr@, k as int),
        decreases n - k,
    {
        let ghost args0 = args@;
        match &arr[k] {
            Resp::Bulk(bs) => {
                match bs {
                    BulkStr::Str(b) => {
                        match bytes_to_string(b) {
                            Some(s) => {
                                args.push(s);
                                proof {
                                    lemma_args_view_push(
                                        args0,
                                        args@.last(),
                                    );
                                    assert(extract_args(arr@, k as int) == seq![
                                        vstd::utf8::decode_utf8(b@),
                                    ] + extract_args(arr@, k + 1));
                                    assert(extract_args(arr@, 2) =~= args_view(args@)
                                        + extract_args(arr@, k + 1));
                                }
                            },
                            None => {
                                proof {
                                    assert(extract_args(arr@, k as int) == extract_args(
                                        arr@,
                                        k + 1,
                                    ));
                                }
                            },
                        }
                    },
                    BulkStr::Nil => {
                        proof {
                            assert(extract_args(arr@, k as int) == extract_args(arr@, k + 1));
                        }
                    },
                }
            },
            _ => {
                proof {
                    assert(extract_args(arr@, k as int) == extract_args(arr@, k + 1));
                }
            },
        }
        k = k + 1;
    }
    proof {
        assert(extract_args(arr@, n as int) =~= Seq::<Seq<char>>::empty());
        assert(args_view(args@) + Seq::<Seq<char>>::empty() =~= args_view(args@));
        assert(extract_args(arr@, 2) == args_view(args@));
    }
    parse_repl_args(&args)
}

impl ReplicatorMeta {
    /// Parse the mapping out of a RESP command.
    pub fn from_resp(resp: &Resp) -> (r: Result<ReplicatorMeta, CmdParseError>)
        ensures
            r is Ok <==> (resp matches Resp::Arr(Array::Arr(arr)) && parse_model(
                extract_args(arr@, 2),
            ) is Some),
            r matches Ok(m) ==> (resp matches Resp::Arr(Array::Arr(arr)) && parse_model(
                extract_args(arr@, 2),
            ) == Some(meta_model(m))),
    {
        parse_repl_meta(resp)
    }
}

/// Upper-casing the role and flag words.
proof fn lemma_role_constants()
    ensures
        upper_of(master_lit()) == master_up(),
        upper_of(replica_lit()) == replica_up(),
        upper_of(force_lit()) == force_lit(),
        upper_of(noflag_lit()) == noflag_lit(),
        master_up() != replica_up(),
        noflag_lit() != force_lit(),
{
    assert(upper_of(master_lit()) =~= master_up()) by {
        assert(crate::strfmt::upper_char('m') == 'M');
        assert(crate::strfmt::upper_char('a') == 'A');
        assert(crate::strfmt::upper_char('s') == 'S');
        assert(crate::strfmt::upper_char('t') == 'T');
        assert(crate::strfmt::upper_char('e') == 'E');
        assert(crate::strfmt::upper_char('r') == 'R');
    }
    assert(upper_of(replica_lit()) =~= replica_up()) by {
        assert(crate::strfmt::upper_char('r') == 'R');
        assert(crate::strfmt::upper_char('e') == 'E');
        assert(crate::strfmt::upper_char('p') == 'P');
        assert(crate::strfmt::upper_char('l') == 'L');
        assert(crate::strfmt::upper_char('i') == 'I');
        assert(crate::strfmt::upper_char('c') == 'C');
        assert(crate::strfmt::upper_char('a') == 'A');
    }
    assert(upper_of(force_lit()) =~= force_lit()) by {
        assert(crate::strfmt::upper_char('F') == 'F');
        assert(crate::strfmt::upper_char('O') == 'O');
        assert(crate::strfmt::upper_char('R') == 'R');
        assert(crate::strfmt::upper_char('C') == 'C');
        assert(crate::strfmt::upper_char('E') == 'E');
    }
    assert(upper_of(noflag_lit()) =~= noflag_lit()) by {
        assert(crate::strfmt::upper_char('N') == 'N');
        assert(crate::strfmt::upper_char('O') == 'O');
        assert(crate::strfmt::upper_char('F') == 'F');
        assert(crate::strfmt::upper_char('L') == 'L');
        assert(crate::strfmt::upper_char('A') == 'A');
        assert(crate::strfmt::upper_char('G') == 'G');
    }
    assert(master_up().len() != replica_up().len());
    assert(noflag_lit().len() != force_lit().len());
}

/// Every peer count of the sides fits a `u64`.
pub open spec fn sides_counts_ok(ss: Seq<SideModel>) -> bool {
    forall|j: int| 0 <= j < ss.len() ==> (#[trigger] ss[j]).peers.len() <= u64::MAX
}

/// Reading back what `peers_args` wrote.
proof fn lemma_peers_parse(av: Seq<Seq<char>>, i: int, ps: Seq<PeerModel>)
    requires
        0 <= i,
        i + 2 * ps.len() <= av.len(),
        av.subrange(i, i + 2 * ps.len()) == peers_args(ps),
    ensures
        peers_of(av, i, ps.len() as int) == ps,
    decreases ps.len(),
{
    lemma_peers_args_len(ps);
    if ps.len() > 0 {
        lemma_peers_args_len(ps.drop_first());
        assert(av.subrange(i, i + 2 * ps.len())[0] == av[i]);
        assert(av.subrange(i, i + 2 * ps.len())[1] == av[i + 1]);
        assert(peers_args(ps)[0] == ps.first().node);
        assert(peers_args(ps)[1] == ps.first().proxy);
        assert(av.subrange(i + 2, i + 2 + 2 * ps.drop_first().len()) =~= peers_args(
            ps.drop_first(),
        )) by {
            assert forall|x: int| 0 <= x < 2 * ps.drop_first().len() implies av.subrange(
                i + 2,
                i + 2 + 2 * ps.drop_first().len(),
            )[x] == peers_args(ps.drop_first())[x] by {
                assert(av.subrange(i, i + 2 * ps.len())[x + 2] == av[i + 2 + x]);
                assert(peers_args(ps)[x + 2] == peers_args(ps.drop_first())[x]);
            }
        }
        lemma_peers_parse(av, i + 2, ps.drop_first());
        assert(peers_of(av, i, ps.len() as int) =~= ps) by {
            assert(peers_of(av, i, ps.len() as int) == seq![
                PeerModel { node: av[i], proxy: av[i + 1] },
            ] + peers_of(av, i + 2, ps.len() - 1));
        }
    } else {
        assert(peers_of(av, i, 0int) =~= ps);
    }
}

/// Reading back what the side lists wrote.
#[verifier::rlimit(100)]
proof fn lemma_sides_parse_enc(
    av: Seq<Seq<char>>,
    i: int,
    ms: Seq<SideModel>,
    rs: Seq<SideModel>,
)
    requires
        2 <= i,
        sides_counts_ok(ms),
        sides_counts_ok(rs),
        av.len() == i + sides_args(master_lit(), ms).len() + sides_args(replica_lit(), rs).len(),
        av.subrange(i, av.len() as int) == sides_args(master_lit(), ms) + sides_args(
            replica_lit(),
            rs,
        ),
    ensures
        parse_sides(av, i) == Some((ms, rs)),
    decreases ms.len() + rs.len(),
{
    lemma_role_constants();
    if ms.len() == 0 && rs.len() == 0 {
        assert(i == av.len());
    } else if ms.len() > 0 {
        let side = ms.first();
        let group = side_args(master_lit(), side);
        lemma_peers_args_len(side.peers);
        assert(group.len() == 4 + 2 * side.peers.len());
        assert((#[trigger] ms[0]).peers.len() <= u64::MAX);
        let rest = sides_args(master_lit(), ms.drop_first()) + sides_args(replica_lit(), rs);
        assert(sides_args(master_lit(), ms) == group + sides_args(master_lit(), ms.drop_first()));
        assert(av.subrange(i, av.len() as int) =~= group + rest);
        assert forall|x: int| 0 <= x < group.len() implies av[i + x] == group[x] by {
            assert(av.subrange(i, av.len() as int)[x] == av[i + x]);
            assert((group + rest)[x] == group[x]);
        }
        assert(av[i + 0] == group[0] && av[i + 1] == group[1] && av[i + 2] == group[2] && av[i
            + 3] == group[3]);
        assert(group[0] == master_lit());
        assert(group[1] == side.db);
        assert(group[2] == side.node);
        assert(group[3] == dec_str(side.peers.len()));
        assert(av[i] == master_lit());
        lemma_dec_roundtrip(side.peers.len());
        assert(av.subrange(i + 4, i + 4 + 2 * side.peers.len()) =~= peers_args(side.peers)) by {
            assert forall|x: int| 0 <= x < 2 * side.peers.len() implies av.subrange(
                i + 4,
                i + 4 + 2 * side.peers.len(),
            )[x] == peers_args(side.peers)[x] by {
                let y = 4 + x;
                assert(av[i + y] == group[y]);
                assert(group[4 + x] == peers_args(side.peers)[x]);
            }
        }
        lemma_peers_parse(av, i + 4, side.peers);
        let next = i + 4 + 2 * side.peers.len();
        assert(av.subrange(next, av.len() as int) =~= rest) by {
            assert forall|x: int| 0 <= x < rest.len() implies av.subrange(
                next,
                av.len() as int,
            )[x] == rest[x] by {
                assert(av.subrange(i, av.len() as int)[group.len() + x] == av[next + x]);
                assert((group + rest)[group.len() + x] == rest[x]);
            }
        }
        assert(sides_counts_ok(ms.drop_first())) by {
            assert(forall|j: int|
                0 <= j < ms.drop_first().len() ==> (#[trigger] ms.drop_first()[j]) == ms[j + 1]);
        }
        lemma_sides_parse_enc(av, next, ms.drop_first(), rs);
        assert(upper_of(av[i]) == master_up());
        assert(dec_val(av[i + 3]) == side.peers.len());
        assert(parse_sides(av, i) == Some(
            (seq![SideModel { db: av[i + 1], node: av[i + 2], peers: peers_of(av, i + 4, side.peers.len() as int) }]
                + ms.drop_first(), rs),
        ));
        assert(SideModel {
            db: av[i + 1],
            node: av[i + 2],
            peers: peers_of(av, i + 4, side.peers.len() as int),
        } == side);
        assert(seq![side] + ms.drop_first() =~= ms);
    } else {
        let side = rs.first();
        let group = side_args(replica_lit(), side);
        lemma_peers_args_len(side.peers);
        assert(group.len() == 4 + 2 * side.peers.len());
        assert((#[trigger] rs[0]).peers.len() <= u64::MAX);
        let rest = sides_args(replica_lit(), rs.drop_first());
        assert(sides_args(master_lit(), ms) =~= Seq::<Seq<char>>::empty());
        assert(sides_args(replica_lit(), rs) == group + rest);
        assert(av.subrange(i, av.len() as int) =~= group + rest);
        assert forall|x: int| 0 <= x < group.len() implies av[i + x] == group[x] by {
            assert(av.subrange(i, av.len() as int)[x] == av[i + x]);
            assert((group + rest)[x] == group[x]);
        }
        assert(av[i + 0] == group[0] && av[i + 1] == group[1] && av[i + 2] == group[2] && av[i
            + 3] == group[3]);
        assert(group[0] == replica_lit());
        assert(group[1] == side.db);
        assert(group[2] == side.node);
        assert(group[3] == dec_str(side.peers.len()));
        assert(av[i] == replica_lit());
        lemma_dec_roundtrip(side.peers.len());
        assert(av.subrange(i + 4, i + 4 + 2 * side.peers.len()) =~= peers_args(side.peers)) by {
            assert forall|x: int| 0 <= x < 2 * side.peers.len() implies av.subrange(
                i + 4,
                i + 4 + 2 * side.peers.len(),
            )[x] == peers_args(side.peers)[x] by {
                let y = 4 + x;
                assert(av[i + y] == group[y]);
                assert(group[4 + x] == peers_args(side.peers)[x]);
            }
        }
        lemma_peers_parse(av, i + 4, side.peers);
        let next = i + 4 + 2 * side.peers.len();
        assert(av.subrange(next, av.len() as int) =~= rest) by {
            assert forall|x: int| 0 <= x < rest.len() implies av.subrange(
                next,
                av.len() as int,
            )[x] == rest[x] by {
                assert(av.subrange(i, av.len() as int)[group.len() + x] == av[next + x]);
                assert((group + rest)[group.len() + x] == rest[x]);
            }
        }
        assert(sides_counts_ok(rs.drop_first())) by {
            assert(forall|j: int|
                0 <= j < rs.drop_first().len() ==> (#[trigger] rs.drop_first()[j]) == rs[j + 1]);
        }
        assert(rest.len() == sides_args(master_lit(), Seq::<SideModel>::empty()).len()
            + sides_args(replica_lit(), rs.drop_first()).len());
        assert(av.subrange(next, av.len() as int) =~= sides_args(
            master_lit(),
            Seq::<SideModel>::empty(),
        ) + sides_args(replica_lit(), rs.drop_first()));
        lemma_sides_parse_enc(av, next, Seq::<SideModel>::empty(), rs.drop_first());
        assert(upper_of(av[i]) == replica_up());
        assert(upper_of(av[i]) != master_up());
        assert(dec_val(av[i + 3]) == side.peers.len());
        assert(SideModel {
            db: av[i + 1],
            node: av[i + 2],
            peers: peers_of(av, i + 4, side.peers.len() as int),
        } == side);
        assert(seq![side] + rs.drop_first() =~= rs);
    }
}

/// Encoding a replication mapping and parsing the argument list back
/// gives the same mapping: the codec round-trips.
pub proof fn lemma_repl_codec_roundtrip(m: RMetaModel)
    requires
        sides_counts_ok(m.masters),
        sides_counts_ok(m.replicas),
    ensures
        parse_model(encode_model(m)) == Some(m),
{
    lemma_role_constants();
    let av = encode_model(m);
    lemma_dec_roundtrip(m.epoch as nat);
    assert(av[0] == dec_str(m.epoch as nat));
    assert(av[1] == flag_str(m.force));
    assert(upper_of(av[1]) == force_lit() <==> m.force) by {
        if m.force {
            assert(upper_of(force_lit()) == force_lit());
        } else {
            assert(upper_of(noflag_lit()) == noflag_lit());
        }
    }
    let body = sides_args(master_lit(), m.masters) + sides_args(replica_lit(), m.replicas);
    assert(av.len() == 2 + body.len());
    assert(av.subrange(2, av.len() as int) =~= body) by {
        assert forall|x: int| 0 <= x < body.len() implies av.subrange(2, av.len() as int)[x]
            == body[x] by {
            assert(av[2 + x] == body[x]);
        }
    }
    lemma_sides_parse_enc(av, 2, m.masters, m.replicas);
    assert(dec_val(av[0]) == m.epoch);
}

} // verus!

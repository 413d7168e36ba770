//! The command spec and its identity.
//!
//! A run is keyed by the command's argument vector, its working directory,
//! and the selected environment variables.  `CommandOptions` holds those as
//! plain byte strings; `encode_cmd` fixes a canonical byte encoding of the
//! whole spec, which serves both as the fingerprint input and as the side
//! file stored next to the trace to detect fingerprint collisions.

use vstd::prelude::*;

use crate::diff::clone_bytes;
use crate::hash::{chars_of, field_bytes, fields_bytes, fnv1a, hash_bytes, hex_of};
use crate::hash::{lemma_fields_bytes_snoc, push_field};

verus! {

/// The command to run and the context that identifies it: argument vector,
/// working directory, and the captured environment subset, all as exact
/// byte strings.
pub struct CommandOptions {
    pub args: Vec<Vec<u8>>,
    pub workdir: Vec<u8>,
    pub env: Vec<(Vec<u8>, Vec<u8>)>,
}

/// The byte contents of a vector of byte strings.
pub open spec fn views_of(s: Seq<Vec<u8>>) -> Seq<Seq<u8>> {
    s.map_values(|a: Vec<u8>| a@)
}

/// The byte contents of a vector of key-value pairs.
pub open spec fn pair_views(ps: Seq<(Vec<u8>, Vec<u8>)>) -> Seq<(Seq<u8>, Seq<u8>)> {
    ps.map_values(|p: (Vec<u8>, Vec<u8>)| (p.0@, p.1@))
}

/// The byte contents of environment lookup results.
pub open spec fn lookup_views(ls: Seq<(Vec<u8>, Option<Vec<u8>>)>) -> Seq<(Seq<u8>, Option<
    Seq<u8>>)> {
    ls.map_values(|l: (Vec<u8>, Option<Vec<u8>>)| (l.0@, match l.1 {
        Some(v) => Some(v@),
        None => None,
    }))
}

/// The environment subset a run captures: of the configured keys, exactly
/// those present in the environment, in configuration order, with their
/// values.
pub open spec fn selected_env(ls: Seq<(Seq<u8>, Option<Seq<u8>>)>) -> Seq<(Seq<u8>, Seq<u8>)>
    decreases ls.len(),
{
    if ls.len() == 0 {
        Seq::empty()
    } else {
        (match ls[0].1 {
            Some(v) => seq![(ls[0].0, v)],
            None => Seq::empty(),
        }) + selected_env(ls.skip(1))
    }
}

/// Key-value pairs flattened into a field list.
pub open spec fn flat_pairs(ps: Seq<(Vec<u8>, Vec<u8>)>) -> Seq<Seq<u8>>
    decreases ps.len(),
{
    if ps.len() == 0 {
        Seq::empty()
    } else {
        seq![ps[0].0@, ps[0].1@] + flat_pairs(ps.skip(1))
    }
}

/// Appending one lookup extends the selection by its value, if present.
proof fn lemma_selected_env_snoc(ls: Seq<(Seq<u8>, Option<Seq<u8>>)>, l: (Seq<u8>, Option<
    Seq<u8>>))
    ensures
        selected_env(ls.push(l)) == selected_env(ls) + (match l.1 {
            Some(v) => seq![(l.0, v)],
            None => Seq::<(Seq<u8>, Seq<u8>)>::empty(),
        }),
    decreases ls.len(),
{
    let tail = match l.1 {
        Some(v) => seq![(l.0, v)],
        None => Seq::<(Seq<u8>, Seq<u8>)>::empty(),
    };
    if ls.len() == 0 {
        assert(ls.push(l)[0] == l);
        assert(ls.push(l).skip(1) =~= Seq::<(Seq<u8>, Option<Seq<u8>>)>::empty());
        assert(selected_env(Seq::<(Seq<u8>, Option<Seq<u8>>)>::empty())
            == Seq::<(Seq<u8>, Seq<u8>)>::empty());
        assert(selected_env(ls.push(l)) =~= selected_env(ls) + tail);
    } else {
        assert(ls.push(l).skip(1) =~= ls.skip(1).push(l));
        lemma_selected_env_snoc(ls.skip(1), l);
        assert(ls.push(l)[0] == ls[0]);
        let head = match ls[0].1 {
            Some(v) => seq![(ls[0].0, v)],
            None => Seq::<(Seq<u8>, Seq<u8>)>::empty(),
        };
        assert(head + (selected_env(ls.skip(1)) + tail)
            =~= (head + selected_env(ls.skip(1))) + tail);
    }
}

/// Appending one pair extends the flattened field list by its two fields.
proof fn lemma_flat_pairs_snoc(ps: Seq<(Vec<u8>, Vec<u8>)>, p: (Vec<u8>, Vec<u8>))
    ensures
        flat_pairs(ps.push(p)) == flat_pairs(ps) + seq![p.0@, p.1@],
    decreases ps.len(),
{
    if ps.len() == 0 {
        assert(ps.push(p)[0] == p);
        assert(ps.push(p).skip(1) =~= Seq::<(Vec<u8>, Vec<u8>)>::empty());
        assert(flat_pairs(Seq::<(Vec<u8>, Vec<u8>)>::empty()) == Seq::<Seq<u8>>::empty());
        assert(flat_pairs(ps.push(p)) =~= flat_pairs(ps) + seq![p.0@, p.1@]);
    } else {
        assert(ps.push(p).skip(1) =~= ps.skip(1).push(p));
        lemma_flat_pairs_snoc(ps.skip(1), p);
        assert(ps.push(p)[0] == ps[0]);
        assert(seq![ps[0].0@, ps[0].1@] + (flat_pairs(ps.skip(1)) + seq![p.0@, p.1@])
            =~= (seq![ps[0].0@, ps[0].1@] + flat_pairs(ps.skip(1))) + seq![p.0@, p.1@]);
    }
}

impl CommandOptions {
    /// A command always has at least the program to run.
    pub open spec fn wf(self) -> bool {
        self.args@.len() > 0
    }

    /// The canonical byte encoding of the whole spec: the working directory
    /// and the arguments as length-prefixed fields, a separator, then the
    /// environment pairs as length-prefixed fields.
    pub open spec fn canon_spec(self) -> Seq<u8> {
        fields_bytes(seq![self.workdir@] + views_of(self.args@)) + seq![59u8]
            + fields_bytes(flat_pairs(self.env@))
    }

    /// Builds the spec from the argument vector, the working directory, and
    /// the lookup result for each configured environment key: only the keys
    /// found in the environment are captured, in configuration order.
    pub fn new(args: Vec<Vec<u8>>, workdir: Vec<u8>, env_lookups: Vec<(Vec<u8>, Option<
        Vec<u8>>)>) -> (r: Self)
        requires
            args@.len() > 0,
        ensures
            r.wf(),
            r.args == args,
            r.workdir == workdir,
            pair_views(r.env@) == selected_env(lookup_views(env_lookups@)),
    {
        let mut env: Vec<(Vec<u8>, Vec<u8>)> = Vec::new();
        let n = env_lookups.len();
        let ghost lvs = lookup_views(env_lookups@);
        let mut i: usize = 0;
        proof {
            assert(lvs.take(0) =~= Seq::<(Seq<u8>, Option<Seq<u8>>)>::empty());
            assert(pair_views(env@) =~= selected_env(lvs.take(0)));
        }
        while i < n
            invariant
                i <= n,
                n == env_lookups@.len(),
                lvs == lookup_views(env_lookups@),
                pair_views(env@) == selected_env(lvs.take(i as int)),
            decreases n - i,
        {
            let ghost before = env@;
            match &env_lookups[i] {
                (k, Some(v)) => {
                    let key = clone_bytes(k);
                    let val = clone_bytes(v);
                    env.push((key, val));
                },
                _ => {},
            }
            proof {
                assert(lvs.take(i as int + 1) =~= lvs.take(i as int).push(lvs[i as int]));
                lemma_selected_env_snoc(lvs.take(i as int), lvs[i as int]);
                assert(lvs[i as int].0 == env_lookups@[i as int].0@);
                assert(pair_views(env@) =~= selected_env(lvs.take(i as int + 1)));
            }
            i = i + 1;
        }
        proof {
            assert(lvs.take(n as int) =~= lvs);
        }
        CommandOptions { args, workdir, env }
    }

    /// Serializes the spec into its canonical bytes, for the side file and
    /// the fingerprint.
    pub fn encode_cmd(&self) -> (r: Vec<u8>)
        ensures
            r@ == self.canon_spec(),
    {
        let mut out: Vec<u8> = Vec::new();
        let ghost head_fields = seq![self.workdir@] + views_of(self.args@);
        push_field(&mut out, &self.workdir);
        proof {
            assert(head_fields.take(1) =~= Seq::<Seq<u8>>::empty().push(self.workdir@));
            lemma_fields_bytes_snoc(Seq::<Seq<u8>>::empty(), self.workdir@);
            assert(fields_bytes(Seq::<Seq<u8>>::empty()) == Seq::<u8>::empty());
            assert(fields_bytes(head_fields.take(1)) =~= field_bytes(self.workdir@));
            assert(out@ =~= fields_bytes(head_fields.take(1)));
        }
        let n = self.args.len();
        let mut i: usize = 0;
        while i < n
            invariant
                i <= n,
                n == self.args@.len(),
                head_fields == seq![self.workdir@] + views_of(self.args@),
                out@ == fields_bytes(head_fields.take(i as int + 1)),
            decreases n - i,
        {
            push_field(&mut out, &self.args[i]);
            proof {
                assert(head_fields.take(i as int + 2)
                    =~= head_fields.take(i as int + 1).push(self.args@[i as int]@));
                lemma_fields_bytes_snoc(head_fields.take(i as int + 1), self.args@[i as int]@);
            }
            i = i + 1;
        }
        proof {
            assert(head_fields.take(n as int + 1) =~= head_fields);
        }
        out.push(59);
        let ghost mid = out@;
        proof {
            assert(mid =~= fields_bytes(head_fields) + seq![59u8]);
            assert(flat_pairs(self.env@.take(0)) =~= Seq::<Seq<u8>>::empty());
            assert(out@ =~= mid + fields_bytes(flat_pairs(self.env@.take(0))));
        }
        let en = self.env.len();
        let mut j: usize = 0;
        while j < en
            invariant
                j <= en,
                en == self.env@.len(),
                mid == fields_bytes(seq![self.workdir@] + views_of(self.args@)) + seq![59u8],
                out@ == mid + fields_bytes(flat_pairs(self.env@.take(j as int))),
            decreases en - j,
        {
            let ghost flats = flat_pairs(self.env@.take(j as int));
            push_field(&mut out, &self.env[j].0);
            push_field(&mut out, &self.env[j].1);
            proof {
                let p = self.env@[j as int];
                assert(self.env@.take(j as int + 1) =~= self.env@.take(j as int).push(p));
                lemma_flat_pairs_snoc(self.env@.take(j as int), p);
                assert(flats.push(p.0@) =~= flats + seq![p.0@]);
                lemma_fields_bytes_snoc(flats, p.0@);
                lemma_fields_bytes_snoc(flats.push(p.0@), p.1@);
                assert(flats.push(p.0@).push(p.1@) =~= flats + seq![p.0@, p.1@]);
                assert(flat_pairs(self.env@.take(j as int + 1)) =~= flats.push(p.0@).push(p.1@));
                assert(out@ =~= mid + fields_bytes(flat_pairs(self.env@.take(j as int + 1))));
            }
            j = j + 1;
        }
        proof {
            assert(self.env@.take(en as int) =~= self.env@);
            assert(out@ =~= self.canon_spec());
        }
        out
    }

    /// The command identity: the fingerprint of the canonical encoding, as
    /// sixteen lowercase hex digits, used as the trace lookup key.
    pub fn hash(&self) -> (r: String)
        ensures
            r@ == chars_of(hex_of(fnv1a(self.canon_spec()), 16)),
    {
        let canon = self.encode_cmd();
        hash_bytes(&canon)
    }
}

/// The wrapper's own exit code mirrors the child's: its code when it has
/// one, or 1 when the child was terminated without a code.
pub fn exit_code(code: Option<i32>) -> (r: i32)
    ensures
        r == (match code {
            Some(c) => c,
            None => 1i32,
        }),
{
    match code {
        Some(c) => c,
        None => 1,
    }
}

} // verus!

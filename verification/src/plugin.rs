//! The protocol engine: the recipient-v1 and identity-v1 state machines.
//! Both share a collect-then-respond shape: phase one accumulates state from
//! stanzas until `done`, phase two emits one response per unit of accepted
//! work, then a final `done`.

use vstd::prelude::*;

use vstd::utf8::encode_utf8;

use crate::codec::{
    b64_decode, b64_encode, b64_dec_of, b64_of, enc_lines, lemma_stanza_parse_bounds, read_stanza,
    stanza_parse, write_stanza, Stanza, StanzaModel, StanzaStep, Stream,
};
use crate::crypto::{
    access_control_label, derived_key, ecdh_of, nonce_spec, seal_of, sec1_ok, unwrap, wrap,
    Crypto, CryptoError, KeyAccessControl, SecureEnclavePrivateKey,
};
use crate::encoder::{
    b32_of, decode_identity, decode_recipient, encode_identity, encode_recipient, id_decode_spec,
    rcp_decode_spec, recipient_hrp, recipient_label, RecipientStanzaType, RecipientType,
};
use crate::strutil::{dec_of, dec_str, str_eq};
use crate::FILE_KEY_LEN;

verus! {

/// Errors raised by the protocol engine.
#[derive(Debug)]
pub enum PluginError {
    /// The hardware key store is not available on this device.
    SEUnsupported,
    /// End of stream before a stanza was complete.
    IncompleteStanza,
    /// A stanza header that the protocol does not allow.
    InvalidStanza,
    /// A bech32 string whose human-readable prefix is not recognized.
    UnknownHRP(String),
    /// An error from the key provider or the envelope scheme.
    CryptoError(CryptoError),
    /// A bech32 string that does not decode.
    Bech32Error,
    /// A body line that is not valid base64.
    Base64Error,
}

/// A decoded `add-recipient` entry: the 33-byte public point and the kind
/// taken from the bech32 prefix. Valid only within one session.
pub struct RecipientEntry {
    pub public_key: Vec<u8>,
    pub stanza_type: RecipientType,
}

/// The model of a recipient entry.
pub open spec fn entry_view(e: RecipientEntry) -> (Seq<u8>, RecipientType) {
    (e.public_key@, e.stanza_type)
}

pub open spec fn entries_view(v: Seq<RecipientEntry>) -> Seq<(Seq<u8>, RecipientType)> {
    Seq::new(v.len(), |i: int| entry_view(v[i]))
}

pub open spec fn stanzas_view(v: Seq<Stanza>) -> Seq<StanzaModel> {
    Seq::new(v.len(), |i: int| v[i]@)
}

/// The lines that a sequence of stanzas frames to.
pub open spec fn flat_lines(sts: Seq<StanzaModel>) -> Seq<Seq<char>> {
    sts.map_values(|m: StanzaModel| enc_lines(m)).flatten()
}

pub proof fn lemma_flat_lines_empty()
    ensures
        flat_lines(Seq::<StanzaModel>::empty()) == Seq::<Seq<char>>::empty(),
{
    assert(Seq::<StanzaModel>::empty().map_values(|m: StanzaModel| enc_lines(m))
        =~~= Seq::<Seq<Seq<char>>>::empty());
    assert(Seq::<Seq<Seq<char>>>::empty().flatten() =~~= Seq::<Seq<char>>::empty());
}

pub proof fn lemma_flat_lines_push(sts: Seq<StanzaModel>, m: StanzaModel)
    ensures
        flat_lines(sts.push(m)) == flat_lines(sts) + enc_lines(m),
{
    assert(sts.push(m).map_values(|x: StanzaModel| enc_lines(x)) =~~= sts.map_values(
        |x: StanzaModel| enc_lines(x),
    ).push(enc_lines(m)));
    sts.map_values(|x: StanzaModel| enc_lines(x)).lemma_flatten_push(enc_lines(m));
}

/// The `done` response that closes phase two.
pub open spec fn done_model() -> StanzaModel {
    StanzaModel { t: "done"@, args: Seq::empty(), body: Seq::empty() }
}

/// An error stanza emitted while collecting, for one rejected `add-*` entry.
pub open spec fn collect_err_model(t: Seq<char>, msg: Seq<char>) -> StanzaModel {
    StanzaModel { t: t, args: Seq::empty(), body: encode_utf8(msg) }
}

/// What phase one of recipient-v1 accumulates.
pub struct RecipCollect {
    pub recipients: Seq<(Seq<u8>, RecipientType)>,
    pub identities: Seq<Seq<u8>>,
    pub file_keys: Seq<Seq<u8>>,
    pub pre_out: Seq<StanzaModel>,
    pub ok: bool,
}

pub open spec fn init_recip_collect() -> RecipCollect {
    RecipCollect {
        recipients: Seq::empty(),
        identities: Seq::empty(),
        file_keys: Seq::empty(),
        pre_out: Seq::empty(),
        ok: true,
    }
}

/// One collecting step of recipient-v1: `add-recipient` appends a decoded
/// entry or reports it; `add-identity` likewise; `wrap-file-key` appends its
/// body as a file key; any other type is ignored for forward compatibility.
pub open spec fn recip_step(
    t: Seq<char>,
    args: Seq<Seq<char>>,
    body: Seq<u8>,
    acc: RecipCollect,
) -> RecipCollect {
    if t == "add-recipient"@ {
        if args.len() == 0 {
            acc
        } else {
            match rcp_decode_spec(args[0]) {
                Some((pk, ty)) => RecipCollect {
                    recipients: acc.recipients.push((pk, ty)),
                    ..acc
                },
                None => RecipCollect {
                    pre_out: acc.pre_out.push(
                        collect_err_model("error-recipient"@, "could not decode recipient"@),
                    ),
                    ..acc
                },
            }
        }
    } else if t == "add-identity"@ {
        if args.len() == 0 {
            acc
        } else {
            match id_decode_spec(args[0]) {
                Some(d) => RecipCollect { identities: acc.identities.push(d), ..acc },
                None => RecipCollect {
                    pre_out: acc.pre_out.push(
                        collect_err_model("error-identity"@, "could not decode identity"@),
                    ),
                    ..acc
                },
            }
        }
    } else if t == "wrap-file-key"@ {
        RecipCollect { file_keys: acc.file_keys.push(body), ..acc }
    } else {
        acc
    }
}

/// Phase one of recipient-v1 over the pending input lines: stanzas are
/// folded by [`recip_step`] until `done`; a framing failure makes the
/// session not ok.
pub open spec fn collect_recipient_v1(lines: Seq<Seq<char>>, acc: RecipCollect) -> RecipCollect
    decreases lines.len(),
{
    match stanza_parse(lines) {
        StanzaStep::Failed { kind, used } => RecipCollect { ok: false, ..acc },
        StanzaStep::Got { t, args, body, used } => {
            if !(1 <= used <= lines.len()) {
                RecipCollect { ok: false, ..acc }
            } else if t == "done"@ {
                acc
            } else {
                collect_recipient_v1(lines.skip(used), recip_step(t, args, body, acc))
            }
        },
    }
}

/// A successful wrap response for the pair of file key `i` and recipient
/// `rcp`: a `recipient-stanza` whose arguments are the file index, the
/// recipient's tag and the base64 ephemeral share, and whose body is the
/// file key sealed under the key derived from the ECDH secret of the
/// ephemeral and recipient shares.
pub open spec fn pair_success_resp(
    st: StanzaModel,
    i: int,
    fk: Seq<u8>,
    rcp: (Seq<u8>, RecipientType),
) -> bool {
    &&& st.t == "recipient-stanza"@
    &&& st.args.len() == 3
    &&& st.args[0] == dec_of(i as nat)
    &&& st.args[1] == recipient_label(rcp.1)
    &&& exists|eph: Seq<u8>|
        eph.len() == 33 && st.args[2] == b64_of(eph) && st.body == seal_of(
            derived_key(ecdh_of(eph, rcp.0), recipient_label(rcp.1), eph, rcp.0),
            nonce_spec(),
            fk,
        )
}

/// The failure response for a pair: `error-recipient` with the file index.
pub open spec fn pair_error_resp(st: StanzaModel, i: int) -> bool {
    &&& st.t == "error-recipient"@
    &&& st.args.len() == 1
    &&& st.args[0] == dec_of(i as nat)
}

/// One response of phase two, tied to the wrap outcome: a 16-byte file key
/// and a valid recipient point owe the successful `recipient-stanza`; any
/// other pair owes `error-recipient` for that pair alone.
pub open spec fn pair_resp_ok(
    st: StanzaModel,
    i: int,
    fk: Seq<u8>,
    rcp: (Seq<u8>, RecipientType),
) -> bool {
    if fk.len() == FILE_KEY_LEN && sec1_ok(rcp.0) {
        pair_success_resp(st, i, fk, rcp)
    } else {
        pair_error_resp(st, i)
    }
}

/// Phase two of recipient-v1 emits exactly one response per (file key,
/// recipient) pair, enumerated in (file-key-index, recipient-order) order,
/// followed by one `done`.
pub open spec fn recipient_responses_ok(
    sts: Seq<StanzaModel>,
    fks: Seq<Seq<u8>>,
    rcps: Seq<(Seq<u8>, RecipientType)>,
) -> bool {
    &&& sts.len() == fks.len() * rcps.len() + 1
    &&& forall|i: int, j: int|
        0 <= i < fks.len() && 0 <= j < rcps.len() ==> #[trigger] pair_resp_ok(
            sts[i * rcps.len() + j],
            i,
            fks[i],
            rcps[j],
        )
    &&& sts[sts.len() - 1] == done_model()
}

/// Wrap one file key for one recipient and build the response stanza.
fn wrap_pair<C: Crypto>(crypto: &C, i: u64, fk: &Vec<u8>, rcp: &RecipientEntry) -> (st: Stanza)
    ensures
        pair_resp_ok(st@, i as int, fk@, entry_view(*rcp)),
{
    let tag = rcp.stanza_type.label();
    match wrap(crypto, fk, &rcp.public_key, tag) {
        Ok((eph, ct)) => {
            let ghost eph_view = eph@;
            let ghost ct_view = ct@;
            let mut args: Vec<String> = Vec::new();
            args.push(dec_str(i));
            args.push(tag.to_owned());
            args.push(b64_encode(&eph));
            let st = Stanza::new("recipient-stanza", args, ct);
            proof {
                assert(st@.args =~~= seq![
                    dec_of(i as nat),
                    recipient_label(rcp.stanza_type),
                    b64_of(eph_view),
                ]);
                assert(st@.body == ct_view);
                assert(eph_view.len() == 33 && st@.args[2] == b64_of(eph_view) && st@.body
                    == seal_of(
                    derived_key(
                        ecdh_of(eph_view, entry_view(*rcp).0),
                        recipient_label(entry_view(*rcp).1),
                        eph_view,
                        entry_view(*rcp).0,
                    ),
                    nonce_spec(),
                    fk@,
                ));
                assert(pair_success_resp(st@, i as int, fk@, entry_view(*rcp)));
                assert(pair_resp_ok(st@, i as int, fk@, entry_view(*rcp)));
            }
            st
        },
        Err(_) => {
            let mut args: Vec<String> = Vec::new();
            args.push(dec_str(i));
            let st = Stanza::new("error-recipient", args, Vec::new());
            proof {
                assert(st@.args =~~= seq![dec_of(i as nat)]);
            }
            st
        },
    }
}

/// The main plugin: the protocol engine with its key provider.
pub struct Plugin<C: Crypto> {
    pub crypto: C,
}

impl<C: Crypto> Plugin<C> {
    pub fn new(crypto: C) -> (r: Plugin<C>)
        ensures
            r.crypto == crypto,
    {
        Plugin { crypto }
    }

    /// Generate a hardware-bound key: the result is the key file contents
    /// and the recipient string for the new key's public point.
    pub fn generate_key(
        &self,
        access_control: KeyAccessControl,
        recipient_type: RecipientType,
        created_at: &str,
    ) -> (r: Result<(String, String), PluginError>)
        ensures
            !self.crypto.se_available() <==> (r is Err && r->Err_0 is SEUnsupported),
            r is Err ==> r->Err_0 is SEUnsupported || r->Err_0 is CryptoError,
            r is Ok ==> exists|pk: Seq<u8>, data: Seq<u8>|
                pk.len() == 33 && r->Ok_0.1@ == b32_of(recipient_hrp(recipient_type), pk)
                    && r->Ok_0.0@ == key_file_contents(
                    created_at@,
                    access_control,
                    recipient_type,
                    pk,
                    data,
                ),
    {
        if !self.crypto.is_secure_enclave_available() {
            return Err(PluginError::SEUnsupported);
        }
        let private_key = match self.crypto.new_secure_enclave_private_key(
            None,
            Some(access_control),
        ) {
            Ok(k) => k,
            Err(e) => {
                return Err(PluginError::CryptoError(e));
            },
        };
        let public_key = private_key.public_key();
        let data = private_key.data_representation();
        let identity = encode_identity(&data);
        let recipient = encode_recipient(&public_key, recipient_type);
        let mut contents = String::new();
        contents.append("# created: ");
        contents.append(created_at);
        contents.append("\n# access control: ");
        contents.append(access_control.label());
        contents.append("\n# public key: ");
        contents.append(recipient.as_str());
        contents.append("\n");
        contents.append(identity.as_str());
        contents.append("\n\n");
        proof {
            assert(contents@ =~= key_file_contents(
                created_at@,
                access_control,
                recipient_type,
                public_key@,
                data@,
            ));
        }
        Ok((contents, recipient))
    }

    /// Derive recipients from identity-file contents. The provider cannot
    /// re-derive a public point from an identity's opaque data, so this
    /// always yields no recipients.
    pub fn generate_recipients(&self, input: &str, recipient_type: RecipientType) -> (r: Result<
        String,
        PluginError,
    >)
        ensures
            r is Ok && r->Ok_0@ == Seq::<char>::empty(),
    {
        Ok(String::new())
    }

    /// Run the recipient-v1 role: collect recipients, identities and file
    /// keys until `done`, then wrap every file key for every recipient in
    /// order. A framing failure aborts with one terminal error stanza;
    /// per-entry and per-pair failures are reported and do not abort.
    pub fn run_recipient_v1<S: Stream>(&mut self, stream: &mut S)
        ensures
            ({
                let c = collect_recipient_v1(old(stream).inputs(), init_recip_collect());
                let out_before = old(stream).outputs();
                let out_after = final(stream).outputs();
                if c.ok {
                    exists|sts: Seq<StanzaModel>|
                        recipient_responses_ok(sts, c.file_keys, c.recipients) && out_after
                            == out_before + flat_lines(c.pre_out) + flat_lines(sts)
                } else {
                    exists|err: StanzaModel|
                        err.t == "error-internal"@ && out_after == out_before + flat_lines(
                            c.pre_out,
                        ) + enc_lines(err)
                }
            }),
    {
        let ghost inp = stream.inputs();
        let ghost out0 = stream.outputs();
        let mut recipients: Vec<RecipientEntry> = Vec::new();
        let mut identities: Vec<Vec<u8>> = Vec::new();
        let mut file_keys: Vec<Vec<u8>> = Vec::new();
        let mut session_ok = true;
        let ghost mut acc = init_recip_collect();
        proof {
            lemma_flat_lines_empty();
            assert(entries_view(recipients@) =~~= acc.recipients);
            assert(identities.deep_view() =~~= acc.identities);
            assert(file_keys.deep_view() =~~= acc.file_keys);
            assert(stream.outputs() =~~= out0 + flat_lines(acc.pre_out));
        }
        loop
            invariant_except_break
                acc.ok,
                session_ok,
                collect_recipient_v1(inp, init_recip_collect()) == collect_recipient_v1(
                    stream.inputs(),
                    acc,
                ),
            invariant
                inp == old(stream).inputs(),
                out0 == old(stream).outputs(),
                entries_view(recipients@) == acc.recipients,
                identities.deep_view() == acc.identities,
                file_keys.deep_view() == acc.file_keys,
                stream.outputs() == out0 + flat_lines(acc.pre_out),
            ensures
                stream.outputs() == out0 + flat_lines(acc.pre_out),
                entries_view(recipients@) == acc.recipients,
                identities.deep_view() == acc.identities,
                file_keys.deep_view() == acc.file_keys,
                session_ok == acc.ok,
                collect_recipient_v1(inp, init_recip_collect()) == acc,
            decreases stream.inputs().len(),
        {
            let ghost cur = stream.inputs();
            proof {
                lemma_stanza_parse_bounds(cur);
            }
            match read_stanza(stream) {
                Err(_) => {
                    proof {
                        assert(collect_recipient_v1(cur, acc) == (RecipCollect {
                            ok: false,
                            ..acc
                        }));
                        acc = RecipCollect { ok: false, ..acc };
                    }
                    session_ok = false;
                    break;
                },
                Ok(stanza) => {
                    let ghost t = stanza@.t;
                    let ghost args = stanza@.args;
                    let ghost body = stanza@.body;
                    if str_eq(stanza.type_str.as_str(), "done") {
                        proof {
                            assert(collect_recipient_v1(cur, acc) == acc);
                        }
                        break;
                    }
                    proof {
                        assert(collect_recipient_v1(cur, acc) == collect_recipient_v1(
                            stream.inputs(),
                            recip_step(t, args, body, acc),
                        ));
                    }
                    if str_eq(stanza.type_str.as_str(), "add-recipient") {
                        if stanza.args.len() > 0 {
                            proof {
                                assert(args[0] == stanza.args.deep_view()[0]);
                            }
                            match decode_recipient((&stanza.args[0]).as_str()) {
                                Ok((pk, ty)) => {
                                    let ghost r0 = recipients@;
                                    recipients.push(RecipientEntry {
                                        public_key: pk,
                                        stanza_type: ty,
                                    });
                                    proof {
                                        acc = recip_step(t, args, body, acc);
                                        assert(entries_view(recipients@) =~~= acc.recipients);
                                    }
                                },
                                Err(_) => {
                                    let st = Stanza::new("error-recipient", Vec::new(),
                                        message_bytes("could not decode recipient"));
                                    let ghost stm = st@;
                                    write_stanza(stream, st);
                                    proof {
                                        let p0 = acc.pre_out;
                                        acc = recip_step(t, args, body, acc);
                                        assert(stm.args =~~= Seq::<Seq<char>>::empty());
                                        assert(stm == collect_err_model(
                                            "error-recipient"@,
                                            "could not decode recipient"@,
                                        ));
                                        lemma_flat_lines_push(p0, stm);
                                        assert(stream.outputs() =~~= out0 + flat_lines(
                                            acc.pre_out,
                                        ));
                                    }
                                },
                            }
                        }
                    } else if str_eq(stanza.type_str.as_str(), "add-identity") {
                        if stanza.args.len() > 0 {
                            proof {
                                assert(args[0] == stanza.args.deep_view()[0]);
                            }
                            match decode_identity((&stanza.args[0]).as_str()) {
                                Ok(d) => {
                                    identities.push(d);
                                    proof {
                                        acc = recip_step(t, args, body, acc);
                                        assert(identities.deep_view() =~~= acc.identities);
                                    }
                                },
                                Err(_) => {
                                    let st = Stanza::new("error-identity", Vec::new(),
                                        message_bytes("could not decode identity"));
                                    let ghost stm = st@;
                                    write_stanza(stream, st);
                                    proof {
                                        let p0 = acc.pre_out;
                                        acc = recip_step(t, args, body, acc);
                                        assert(stm.args =~~= Seq::<Seq<char>>::empty());
                                        assert(stm == collect_err_model(
                                            "error-identity"@,
                                            "could not decode identity"@,
                                        ));
                                        lemma_flat_lines_push(p0, stm);
                                        assert(stream.outputs() =~~= out0 + flat_lines(
                                            acc.pre_out,
                                        ));
                                    }
                                },
                            }
                        }
                    } else if str_eq(stanza.type_str.as_str(), "wrap-file-key") {
                        file_keys.push(stanza.body);
                        proof {
                            acc = recip_step(t, args, body, acc);
                            assert(file_keys.deep_view() =~~= acc.file_keys);
                        }
                    } else {
                        proof {
                            acc = recip_step(t, args, body, acc);
                        }
                    }
                },
            }
        }
        if !session_ok {
            let st = Stanza::new("error-internal", Vec::new(), message_bytes("malformed stanza"));
            let ghost stm = st@;
            write_stanza(stream, st);
            proof {
                assert(stm.t == "error-internal"@);
            }
            return;
        }
        self.respond_recipient(stream, &file_keys, &recipients);
    }

    /// Phase two of recipient-v1.
    fn respond_recipient<S: Stream>(
        &mut self,
        stream: &mut S,
        file_keys: &Vec<Vec<u8>>,
        recipients: &Vec<RecipientEntry>,
    )
        ensures
            exists|sts: Seq<StanzaModel>|
                recipient_responses_ok(sts, file_keys.deep_view(), entries_view(recipients@))
                    && final(stream).outputs() == old(stream).outputs() + flat_lines(sts),
    {
        let ghost out0 = stream.outputs();
        let ghost fks = file_keys.deep_view();
        let ghost rcps = entries_view(recipients@);
        let n = file_keys.len();
        let m = recipients.len();
        let ghost mut sts: Seq<StanzaModel> = Seq::empty();
        proof {
            lemma_flat_lines_empty();
        }
        let mut i: usize = 0;
        while i < n
            invariant
                i <= n,
                n == fks.len(),
                m == rcps.len(),
                fks == file_keys.deep_view(),
                rcps == entries_view(recipients@),
                sts.len() == i * m,
                forall|a: int, b: int|
                    0 <= a < i && 0 <= b < m ==> #[trigger] pair_resp_ok(
                        sts[a * m + b],
                        a,
                        fks[a],
                        rcps[b],
                    ),
                stream.outputs() == out0 + flat_lines(sts),
                stream.inputs() == old(stream).inputs(),
            decreases n - i,
        {
            let mut j: usize = 0;
            while j < m
                invariant
                    i < n,
                    j <= m,
                    n == fks.len(),
                    m == rcps.len(),
                    fks == file_keys.deep_view(),
                    rcps == entries_view(recipients@),
                    sts.len() == i * m + j,
                    forall|a: int, b: int|
                        0 <= a < i && 0 <= b < m ==> #[trigger] pair_resp_ok(
                            sts[a * m + b],
                            a,
                            fks[a],
                            rcps[b],
                        ),
                    forall|b: int|
                        0 <= b < j ==> #[trigger] pair_resp_ok(
                            sts[i * m + b],
                            i as int,
                            fks[i as int],
                            rcps[b],
                        ),
                    stream.outputs() == out0 + flat_lines(sts),
                    stream.inputs() == old(stream).inputs(),
                decreases m - j,
            {
                let st = wrap_pair(&self.crypto, i as u64, &file_keys[i], &recipients[j]);
                let ghost stm = st@;
                proof {
                    assert(fks[i as int] == file_keys[i as int]@);
                    assert(rcps[j as int] == entry_view(recipients[j as int]));
                }
                write_stanza(stream, st);
                proof {
                    lemma_flat_lines_push(sts, stm);
                    let prev = sts;
                    sts = sts.push(stm);
                    let ii = i as int;
                    let jj = j as int;
                    assert(pair_resp_ok(stm, ii, fks[ii], rcps[jj]));
                    assert forall|a: int, b: int|
                        0 <= a < ii && 0 <= b < m implies #[trigger] pair_resp_ok(
                        sts[a * m + b],
                        a,
                        fks[a],
                        rcps[b],
                    ) by {
                        assert(0 <= a * m + b && a * m + b < ii * m) by (nonlinear_arith)
                            requires
                                0 <= a < ii,
                                0 <= b < m,
                        ;
                        assert(sts[a * m + b] == prev[a * m + b]);
                        assert(pair_resp_ok(prev[a * m + b], a, fks[a], rcps[b]));
                    }
                    assert forall|b: int| 0 <= b < jj + 1 implies #[trigger] pair_resp_ok(
                        sts[ii * m + b],
                        ii,
                        fks[ii],
                        rcps[b],
                    ) by {
                        if b < jj {
                            assert(sts[ii * m + b] == prev[ii * m + b]);
                            assert(pair_resp_ok(prev[ii * m + b], ii, fks[ii], rcps[b]));
                        } else {
                            assert(b == jj);
                            assert(sts[ii * m + jj] == stm);
                        }
                    }
                }
                j += 1;
            }
            proof {
                let ii = i as int;
                assert(sts.len() == ii * m + m);
                assert(ii * m + m == (ii + 1) * m) by (nonlinear_arith);
                assert forall|a: int, b: int| 0 <= a < ii + 1 && 0 <= b < m implies #[trigger] pair_resp_ok(
                    sts[a * m + b],
                    a,
                    fks[a],
                    rcps[b],
                ) by {
                    if a < ii {
                        assert(pair_resp_ok(sts[a * m + b], a, fks[a], rcps[b]));
                    } else {
                        assert(a == ii);
                        assert(pair_resp_ok(sts[ii * m + b], ii as int, fks[ii as int], rcps[b]));
                    }
                }
            }
            i += 1;
        }
        let st = Stanza::new("done", Vec::new(), Vec::new());
        let ghost stm = st@;
        write_stanza(stream, st);
        proof {
            assert(stm.args =~~= Seq::<Seq<char>>::empty());
            assert(stm.body =~~= Seq::<u8>::empty());
            assert(stm == done_model());
            lemma_flat_lines_push(sts, stm);
            let before = sts;
            sts = sts.push(stm);
            assert(sts.len() == n * m + 1);
            assert forall|a: int, b: int| 0 <= a < n && 0 <= b < m implies #[trigger] pair_resp_ok(
                sts[a * m + b],
                a,
                fks[a],
                rcps[b],
            ) by {
                assert(0 <= a * m + b && a * m + b < n * m) by (nonlinear_arith)
                    requires
                        0 <= a < n,
                        0 <= b < m,
                ;
                assert(sts[a * m + b] == before[a * m + b]);
                assert(pair_resp_ok(before[a * m + b], a, fks[a], rcps[b]));
            }
            assert(sts[sts.len() - 1] == done_model());
            assert(recipient_responses_ok(sts, fks, rcps));
        }
    }

    /// Run the identity-v1 role: collect identities and recipient stanzas
    /// until `done`, then attempt to unwrap each stanza's file key with the
    /// held identities in arrival order. Identity resolution failures are
    /// reported immediately; per-stanza failures are reported per index.
    pub fn run_identity_v1<S: Stream>(&mut self, stream: &mut S)
        ensures
            ({
                let c = collect_identity_v1(old(stream).inputs(), init_ident_collect());
                let out_before = old(stream).outputs();
                let out_after = final(stream).outputs();
                if c.ok {
                    exists|resolved: Seq<bool>, ids: Seq<Seq<u8>>, sts: Seq<StanzaModel>|
                        {
                            &&& resolved.len() == c.attempts.len()
                            &&& forall|k: int|
                                0 <= k < resolved.len() && resolved[k] ==> id_decode_spec(
                                    #[trigger] c.attempts[k],
                                ) is Some
                            &&& ident_responses_ok(sts, c.rsps, ids)
                            &&& out_after == out_before + flat_lines(
                                ident_errs_of(c.attempts, resolved),
                            ) + flat_lines(sts)
                        }
                } else {
                    exists|resolved: Seq<bool>, err: StanzaModel|
                        {
                            &&& resolved.len() == c.attempts.len()
                            &&& forall|k: int|
                                0 <= k < resolved.len() && resolved[k] ==> id_decode_spec(
                                    #[trigger] c.attempts[k],
                                ) is Some
                            &&& err.t == "error-internal"@
                            &&& out_after == out_before + flat_lines(
                                ident_errs_of(c.attempts, resolved),
                            ) + enc_lines(err)
                        }
                }
            }),
    {
        let ghost inp = stream.inputs();
        let ghost out0 = stream.outputs();
        let mut identities: Vec<<C as Crypto>::Key> = Vec::new();
        let mut rsps: Vec<Stanza> = Vec::new();
        let mut session_ok = true;
        let mut attempt: u64 = 0;
        let ghost mut acc = init_ident_collect();
        let ghost mut rflags: Seq<bool> = Seq::empty();
        proof {
            lemma_flat_lines_empty();
            assert(stanzas_view(rsps@) =~~= acc.rsps);
            assert(ident_errs_of(acc.attempts, rflags) =~~= Seq::<StanzaModel>::empty());
            assert(stream.outputs() =~~= out0 + flat_lines(ident_errs_of(acc.attempts, rflags)));
        }
        loop
            invariant_except_break
                acc.ok,
                session_ok,
                collect_identity_v1(inp, init_ident_collect()) == collect_identity_v1(
                    stream.inputs(),
                    acc,
                ),
            invariant
                inp == old(stream).inputs(),
                out0 == old(stream).outputs(),
                stanzas_view(rsps@) == acc.rsps,
                forall|k: int| 0 <= k < rsps@.len() ==> (#[trigger] rsps@[k]@).args.len() >= 3,
                rflags.len() == acc.attempts.len(),
                forall|k: int|
                    0 <= k < rflags.len() && rflags[k] ==> id_decode_spec(
                        #[trigger] acc.attempts[k],
                    ) is Some,
                attempt as int == report_count(acc.attempts.len() as int),
                stream.outputs() == out0 + flat_lines(ident_errs_of(acc.attempts, rflags)),
            ensures
                stream.outputs() == out0 + flat_lines(ident_errs_of(acc.attempts, rflags)),
                stanzas_view(rsps@) == acc.rsps,
                forall|k: int| 0 <= k < rsps@.len() ==> (#[trigger] rsps@[k]@).args.len() >= 3,
                rflags.len() == acc.attempts.len(),
                forall|k: int|
                    0 <= k < rflags.len() && rflags[k] ==> id_decode_spec(
                        #[trigger] acc.attempts[k],
                    ) is Some,
                session_ok == acc.ok,
                collect_identity_v1(inp, init_ident_collect()) == acc,
            decreases stream.inputs().len(),
        {
            let ghost cur = stream.inputs();
            proof {
                lemma_stanza_parse_bounds(cur);
            }
            match read_stanza(stream) {
                Err(_) => {
                    proof {
                        assert(collect_identity_v1(cur, acc) == (IdentCollect {
                            ok: false,
                            ..acc
                        }));
                        acc = IdentCollect { ok: false, ..acc };
                    }
                    session_ok = false;
                    break;
                },
                Ok(stanza) => {
                    let ghost t = stanza@.t;
                    let ghost args = stanza@.args;
                    let ghost body = stanza@.body;
                    if str_eq(stanza.type_str.as_str(), "done") {
                        proof {
                            assert(collect_identity_v1(cur, acc) == acc);
                        }
                        break;
                    }
                    proof {
                        assert(collect_identity_v1(cur, acc) == collect_identity_v1(
                            stream.inputs(),
                            ident_step(t, args, body, acc),
                        ));
                    }
                    if str_eq(stanza.type_str.as_str(), "recipient-stanza") {
                        if stanza.args.len() >= 3 {
                            let ghost r0 = stanzas_view(rsps@);
                            rsps.push(stanza);
                            proof {
                                acc = ident_step(t, args, body, acc);
                                assert(stanzas_view(rsps@) =~~= r0.push(
                                    StanzaModel { t: t, args: args, body: body },
                                ));
                                assert(stanzas_view(rsps@) =~~= acc.rsps);
                            }
                        } else {
                            proof {
                                reveal_strlit("recipient-stanza");
                                reveal_strlit("add-identity");
                                assert("recipient-stanza"@.len() != "add-identity"@.len());
                                acc = ident_step(t, args, body, acc);
                            }
                        }
                    } else if str_eq(stanza.type_str.as_str(), "add-identity") {
                        if stanza.args.len() > 0 {
                            let ghost a0 = acc.attempts;
                            let ghost f0 = rflags;
                            proof {
                                assert(args[0] == stanza.args.deep_view()[0]);
                            }
                            match decode_identity((&stanza.args[0]).as_str()) {
                                Ok(data) => {
                                    proof {
                                        assert(id_decode_spec(args[0]) is Some);
                                    }
                                    match self.crypto.new_secure_enclave_private_key(
                                        Some(data.as_slice()),
                                        None,
                                    ) {
                                        Ok(k) => {
                                            identities.push(k);
                                            proof {
                                                lemma_ident_errs_push(a0, f0, args[0], true);
                                                acc = ident_step(t, args, body, acc);
                                                rflags = rflags.push(true);
                                            }
                                        },
                                        Err(_) => {
                                            emit_identity_error(stream, attempt);
                                            proof {
                                                lemma_ident_errs_push(a0, f0, args[0], false);
                                                lemma_flat_lines_push(
                                                    ident_errs_of(a0, f0),
                                                    err_identity_model(attempt as int),
                                                );
                                                acc = ident_step(t, args, body, acc);
                                                rflags = rflags.push(false);
                                                assert(stream.outputs() =~~= out0 + flat_lines(
                                                    ident_errs_of(acc.attempts, rflags),
                                                ));
                                            }
                                        },
                                    }
                                },
                                Err(_) => {
                                    emit_identity_error(stream, attempt);
                                    proof {
                                        lemma_ident_errs_push(a0, f0, args[0], false);
                                        lemma_flat_lines_push(
                                            ident_errs_of(a0, f0),
                                            err_identity_model(attempt as int),
                                        );
                                        acc = ident_step(t, args, body, acc);
                                        rflags = rflags.push(false);
                                        assert(stream.outputs() =~~= out0 + flat_lines(
                                            ident_errs_of(acc.attempts, rflags),
                                        ));
                                    }
                                },
                            }
                            if attempt < u64::MAX {
                                attempt = attempt + 1;
                            }
                            proof {
                                assert(acc.attempts == a0.push(args[0]));
                                assert(acc.attempts.len() == a0.len() + 1);
                                if a0.len() < u64::MAX {
                                    assert(report_count(a0.len() as int) == a0.len() as int);
                                    assert(attempt as int == a0.len() + 1);
                                    assert(report_count(a0.len() as int + 1) == a0.len() + 1);
                                } else {
                                    assert(attempt == u64::MAX);
                                    assert(report_count(a0.len() as int + 1) == u64::MAX as int);
                                }
                                assert(attempt as int == report_count(acc.attempts.len() as int));
                            }
                        }
                    } else {
                        proof {
                            acc = ident_step(t, args, body, acc);
                        }
                    }
                },
            }
        }
        if !session_ok {
            let st = Stanza::new("error-internal", Vec::new(), message_bytes("malformed stanza"));
            let ghost stm = st@;
            write_stanza(stream, st);
            proof {
                assert(stm.t == "error-internal"@);
            }
            return;
        }
        self.respond_identity(stream, &identities, &rsps);
    }

    /// Phase two of identity-v1.
    fn respond_identity<S: Stream>(
        &mut self,
        stream: &mut S,
        identities: &Vec<<C as Crypto>::Key>,
        rsps: &Vec<Stanza>,
    )
        requires
            forall|k: int| 0 <= k < rsps@.len() ==> (#[trigger] rsps@[k]@).args.len() >= 3,
        ensures
            ({
                let out_before = old(stream).outputs();
                let out_after = final(stream).outputs();
                exists|sts: Seq<StanzaModel>|
                    ident_responses_ok(sts, stanzas_view(rsps@), ids_of(identities@)) && out_after
                        == out_before + flat_lines(sts)
            }),
    {
        let ghost out0 = stream.outputs();
        let ghost rspm = stanzas_view(rsps@);
        let ghost ids = ids_of(identities@);
        let ghost mut sts: Seq<StanzaModel> = Seq::empty();
        proof {
            lemma_flat_lines_empty();
        }
        let mut k: usize = 0;
        while k < rsps.len()
            invariant
                k <= rsps.len(),
                rspm == stanzas_view(rsps@),
                forall|q: int| 0 <= q < rsps@.len() ==> (#[trigger] rsps@[q]@).args.len() >= 3,
                sts.len() == k,
                ids == ids_of(identities@),
                forall|q: int| 0 <= q < k ==> #[trigger] ident_resp_ok(sts[q], rspm[q], ids),
                stream.outputs() == out0 + flat_lines(sts),
                stream.inputs() == old(stream).inputs(),
            decreases rsps.len() - k,
        {
            let rsp = &rsps[k];
            proof {
                assert(rsp@ == rspm[k as int]);
            }
            let recognized = if str_eq((&rsp.args[1]).as_str(), "se") {
                true
            } else {
                RecipientStanzaType::from_str((&rsp.args[1]).as_str()).is_some()
            };
            proof {
                reveal_strlit("se");
                reveal_strlit("p256tag");
                reveal_strlit("piv-p256");
                assert(recognized == tag_recognized(rsp@.args[1]));
            }
            let idx_arg = (&rsp.args[0]).clone();
            let st: Stanza;
            if !recognized {
                st = Stanza::new("unsupported", one_arg(idx_arg), Vec::new());
            } else {
                let mut found: Option<Vec<u8>> = None;
                let tag_str = (&rsp.args[1]).as_str();
                match b64_decode((&rsp.args[2]).as_str()) {
                    Some(eph) => {
                        let mut t: usize = 0;
                        while t < identities.len()
                            invariant_except_break
                                found is None,
                            invariant
                                t <= identities.len(),
                                rsp@.args.len() >= 3,
                                tag_str@ == rsp@.args[1],
                                Some(eph@) == b64_dec_of(rsp@.args[2]),
                                ids == ids_of(identities@),
                            ensures
                                found is Some ==> fk_resp_witness(rsp@, found->Some_0@, ids),
                            decreases identities.len() - t,
                        {
                            match unwrap(&identities[t], tag_str, &eph, &rsp.body) {
                                Ok(pt) => {
                                    proof {
                                        let idt = identities@[t as int];
                                        assert(idt.pk_spec() == ids[t as int]);
                                        assert(rsp@.body == seal_of(
                                            derived_key(
                                                ecdh_of(eph@, idt.pk_spec()),
                                                rsp@.args[1],
                                                eph@,
                                                idt.pk_spec(),
                                            ),
                                            nonce_spec(),
                                            pt@,
                                        ));
                                        assert(fk_resp_witness(rsp@, pt@, ids));
                                    }
                                    found = Some(pt);
                                    break;
                                },
                                Err(_) => {},
                            }
                            t += 1;
                        }
                    },
                    None => {},
                }
                match found {
                    Some(pt) => {
                        let ghost ptv = pt@;
                        st = Stanza::new("file-key", one_arg(idx_arg), pt);
                        proof {
                            assert(st@.body == ptv);
                        }
                    },
                    None => {
                        st = Stanza::new("error-decrypt", one_arg(idx_arg), Vec::new());
                    },
                }
            }
            let ghost stm = st@;
            proof {
                reveal_strlit("file-key");
                reveal_strlit("unsupported");
                reveal_strlit("error-decrypt");
                assert("file-key"@.len() != "unsupported"@.len());
                assert("file-key"@.len() != "error-decrypt"@.len());
                assert("unsupported"@.len() != "error-decrypt"@.len());
                assert(stm.args =~~= seq![rspm[k as int].args[0]]);
                assert(ident_resp_ok(stm, rspm[k as int], ids));
            }
            write_stanza(stream, st);
            proof {
                lemma_flat_lines_push(sts, stm);
                let prev = sts;
                sts = sts.push(stm);
                assert forall|q: int| 0 <= q < k + 1 implies #[trigger] ident_resp_ok(
                    sts[q],
                    rspm[q],
                    ids,
                ) by {
                    if q < k {
                        assert(ident_resp_ok(prev[q], rspm[q], ids));
                        assert(sts[q] == prev[q]);
                    } else {
                        assert(sts[q] == stm);
                    }
                }
            }
            k += 1;
        }
        let st = Stanza::new("done", Vec::new(), Vec::new());
        let ghost stm = st@;
        write_stanza(stream, st);
        proof {
            assert(stm.args =~~= Seq::<Seq<char>>::empty());
            assert(stm.body =~~= Seq::<u8>::empty());
            assert(stm == done_model());
            lemma_flat_lines_push(sts, stm);
            sts = sts.push(stm);
            assert(ident_responses_ok(sts, rspm, ids));
        }
    }
}

/// What phase one of identity-v1 accumulates: the recipient stanzas to
/// answer and the `add-identity` arguments attempted, each in arrival order.
pub struct IdentCollect {
    pub rsps: Seq<StanzaModel>,
    pub attempts: Seq<Seq<char>>,
    pub ok: bool,
}

pub open spec fn init_ident_collect() -> IdentCollect {
    IdentCollect { rsps: Seq::empty(), attempts: Seq::empty(), ok: true }
}

/// One collecting step of identity-v1: a `recipient-stanza` with at least
/// three arguments (index, tag, ephemeral share) is kept for phase two; an
/// `add-identity` is resolved as it arrives, its argument counting as one
/// attempt; anything else is ignored.
pub open spec fn ident_step(
    t: Seq<char>,
    args: Seq<Seq<char>>,
    body: Seq<u8>,
    acc: IdentCollect,
) -> IdentCollect {
    if t == "recipient-stanza"@ && args.len() >= 3 {
        IdentCollect { rsps: acc.rsps.push(StanzaModel { t, args, body }), ..acc }
    } else if t == "add-identity"@ && args.len() >= 1 {
        IdentCollect { attempts: acc.attempts.push(args[0]), ..acc }
    } else {
        acc
    }
}

/// Phase one of identity-v1 over the pending input lines.
pub open spec fn collect_identity_v1(lines: Seq<Seq<char>>, acc: IdentCollect) -> IdentCollect
    decreases lines.len(),
{
    match stanza_parse(lines) {
        StanzaStep::Failed { kind, used } => IdentCollect { ok: false, ..acc },
        StanzaStep::Got { t, args, body, used } => {
            if !(1 <= used <= lines.len()) {
                IdentCollect { ok: false, ..acc }
            } else if t == "done"@ {
                acc
            } else {
                collect_identity_v1(lines.skip(used), ident_step(t, args, body, acc))
            }
        },
    }
}

/// The stanza tags the identity role recognizes: its own recipient tags and
/// the PIV tag. Identities carry no tag of their own, so "no identity
/// matches the tag" means the tag lies outside this set; with a recognized
/// tag and no identity able to decrypt (including none held at all) the
/// answer is a decryption error, not `unsupported`.
pub open spec fn tag_recognized(s: Seq<char>) -> bool {
    s == "se"@ || s == "p256tag"@ || s == "piv-p256"@
}

/// The ordinal written into a per-entry report; the counter saturates at
/// `u64::MAX`, far beyond any session a host can produce.
pub open spec fn report_count(k: int) -> int {
    if k > u64::MAX {
        u64::MAX as int
    } else {
        k
    }
}

/// The report that the identity attempt with the given ordinal could not be
/// used, emitted immediately during collecting.
pub open spec fn err_identity_model(n: int) -> StanzaModel {
    StanzaModel {
        t: "error-identity"@,
        args: seq![dec_of(n as nat)],
        body: encode_utf8("could not use identity"@),
    }
}

/// The reports owed by a run of identity attempts: one per attempt that was
/// not resolved, with its ordinal, in order. Which attempts resolve is the
/// provider's decision, except that an argument that does not decode can
/// never resolve.
pub open spec fn ident_errs_of(attempts: Seq<Seq<char>>, resolved: Seq<bool>) -> Seq<StanzaModel>
    decreases attempts.len(),
{
    if attempts.len() == 0 || resolved.len() != attempts.len() {
        Seq::empty()
    } else {
        let rest = ident_errs_of(attempts.drop_last(), resolved.drop_last());
        if resolved[attempts.len() - 1] {
            rest
        } else {
            rest.push(err_identity_model(report_count(attempts.len() - 1)))
        }
    }
}

pub proof fn lemma_ident_errs_push(
    attempts: Seq<Seq<char>>,
    resolved: Seq<bool>,
    a: Seq<char>,
    b: bool,
)
    requires
        resolved.len() == attempts.len(),
    ensures
        ident_errs_of(attempts.push(a), resolved.push(b)) == if b {
            ident_errs_of(attempts, resolved)
        } else {
            ident_errs_of(attempts, resolved).push(
                err_identity_model(report_count(attempts.len() as int)),
            )
        },
{
    assert(attempts.push(a).drop_last() =~~= attempts);
    assert(resolved.push(b).drop_last() =~~= resolved);
}

/// The public shares of a run of held identities.
pub open spec fn ids_of<K: SecureEnclavePrivateKey>(ks: Seq<K>) -> Seq<Seq<u8>> {
    Seq::new(ks.len(), |j: int| ks[j].pk_spec())
}

/// A recovered file key: the stanza's body is the key sealed under the key
/// derived from the ECDH secret of the stanza's ephemeral share and one of
/// the held identities' public shares, with the stanza's own tag as label.
pub open spec fn fk_resp_witness(rspm: StanzaModel, pt: Seq<u8>, ids: Seq<Seq<u8>>) -> bool {
    exists|j: int, eph: Seq<u8>|
        0 <= j < ids.len() && Some(eph) == b64_dec_of(rspm.args[2]) && rspm.body == seal_of(
            derived_key(ecdh_of(eph, ids[j]), rspm.args[1], eph, ids[j]),
            nonce_spec(),
            pt,
        )
}

/// One response of identity-v1's phase two for one received stanza: its
/// first argument echoes the stanza's index; the tag being unrecognized is
/// exactly what makes the response `unsupported`; a `file-key` response
/// carries a key correctly recovered with one of the held identities.
pub open spec fn ident_resp_ok(st: StanzaModel, rsp: StanzaModel, ids: Seq<Seq<u8>>) -> bool {
    &&& rsp.args.len() >= 3 ==> st.args == seq![rsp.args[0]]
    &&& (st.t == "file-key"@ || st.t == "unsupported"@ || st.t == "error-decrypt"@)
    &&& rsp.args.len() >= 3 ==> (st.t == "unsupported"@ <==> !tag_recognized(rsp.args[1]))
    &&& (st.t == "file-key"@ ==> fk_resp_witness(rsp, st.body, ids))
}

/// Phase two of identity-v1 emits exactly one response per received stanza,
/// in arrival order, followed by one `done`.
pub open spec fn ident_responses_ok(
    sts: Seq<StanzaModel>,
    rsps: Seq<StanzaModel>,
    ids: Seq<Seq<u8>>,
) -> bool {
    &&& sts.len() == rsps.len() + 1
    &&& forall|k: int| 0 <= k < rsps.len() ==> #[trigger] ident_resp_ok(sts[k], rsps[k], ids)
    &&& sts[sts.len() - 1] == done_model()
}

/// Emit the report that the identity attempt with the given ordinal could
/// not be used.
fn emit_identity_error<S: Stream>(stream: &mut S, attempt: u64)
    ensures
        final(stream).inputs() == old(stream).inputs(),
        final(stream).outputs() == old(stream).outputs() + enc_lines(
            err_identity_model(attempt as int),
        ),
{
    let mut eargs: Vec<String> = Vec::new();
    eargs.push(dec_str(attempt));
    let st = Stanza::new("error-identity", eargs, message_bytes("could not use identity"));
    proof {
        assert(st@.args =~~= seq![dec_of(attempt as nat)]);
        assert(st@ == err_identity_model(attempt as int));
    }
    write_stanza(stream, st);
}

/// A single-argument vector.
fn one_arg(s: String) -> (r: Vec<String>)
    ensures
        r.deep_view() == seq![s@],
{
    let mut v: Vec<String> = Vec::new();
    let ghost sv = s@;
    v.push(s);
    proof {
        assert(v.deep_view() =~~= seq![sv]);
    }
    v
}


/// The contents of a generated key file: the creation time, the access
/// control, the public recipient string, then the identity string.
pub open spec fn key_file_contents(
    created: Seq<char>,
    ac: KeyAccessControl,
    t: RecipientType,
    pk: Seq<u8>,
    data: Seq<u8>,
) -> Seq<char> {
    "# created: "@ + created + "\n# access control: "@ + access_control_label(ac)
        + "\n# public key: "@ + b32_of(recipient_hrp(t), pk) + "\n"@ + b32_of(
        "age-plugin-se-"@,
        data,
    ) + "\n\n"@
}

/// The bytes of a short diagnostic message.
fn message_bytes(msg: &str) -> (r: Vec<u8>)
    ensures
        r@ == encode_utf8(msg@),
{
    msg.as_bytes_vec()
}

} // verus!

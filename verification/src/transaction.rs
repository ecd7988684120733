//! Transactions: a payment from one address to a list of outputs, with a fee,
//! identified by the hash of its JSON text and signed by its sender.
use vstd::prelude::*;
use crate::json::{
    dec_int, json_join, json_opt_str, json_str, opt_view, push_i64, push_json_opt_str,
    push_json_str,
};
use crate::strmap::{alist_contains, alist_get, StrMap, ViewClone};
use crate::text::{push_str, string_from_chars};
use crate::utils::{
    addressMatchesKey, hash, sign, signature_checkable, spec_calc_address, spec_hash,
    spec_verify_signature, verifySignature, signatureCheckable,
};

verus! {

/// Whether `v` is a value of `i32`.
pub open spec fn fits_i32(v: int) -> bool {
    i32::MIN <= v <= i32::MAX
}

/// The characters of each output's address, with its amount.
pub open spec fn outputs_view(o: Seq<(String, i32)>) -> Seq<(Seq<char>, i32)> {
    Seq::new(o.len(), |i: int| (o[i].0@, o[i].1))
}

/// What a transaction holds.
#[verifier::ext_equal]
pub struct TxModel {
    pub from: Seq<char>,
    pub nonce: i32,
    pub pub_key: Seq<char>,
    pub sig: Option<Seq<char>>,
    pub fee: i32,
    pub outputs: Seq<(Seq<char>, i32)>,
    pub data: Seq<char>,
    pub id: Seq<char>,
}

#[derive(Clone, Debug, PartialEq, Eq, Hash)]
pub struct transaction {
    pub from: String,
    pub nonce: i32,
    pub pub_key: String,
    pub sig: Option<String>,
    pub fee: i32,
    pub outputs: Vec<(String, i32)>,
    pub data: String,
    pub id: String,
}

impl View for transaction {
    type V = TxModel;

    open spec fn view(&self) -> TxModel {
        TxModel {
            from: self.from@,
            nonce: self.nonce,
            pub_key: self.pub_key@,
            sig: opt_view(self.sig),
            fee: self.fee,
            outputs: outputs_view(self.outputs@),
            data: self.data@,
            id: self.id@,
        }
    }
}

/// The sum of the amounts.
pub open spec fn amounts_sum(outs: Seq<(Seq<char>, i32)>) -> int
    decreases outs.len(),
{
    if outs.len() == 0 {
        0
    } else {
        amounts_sum(outs.drop_last()) + outs.last().1
    }
}

/// Adding the amounts one by one to `start` never leaves `i32`.
pub open spec fn running_sums_fit(start: int, outs: Seq<(Seq<char>, i32)>) -> bool {
    forall|k: int| 1 <= k <= outs.len() ==> fits_i32(start + #[trigger] amounts_sum(outs.take(k)))
}

/// The fee plus every output.
pub open spec fn spec_total_output(t: TxModel) -> int {
    t.fee + amounts_sum(t.outputs)
}

/// `totalOutput` runs without overflow.
pub open spec fn total_output_fits(t: TxModel) -> bool {
    running_sums_fit(t.fee as int, t.outputs)
}

/// A transaction is validly signed when it carries a signature, its sender is
/// the address of its public key, and the signature checks against its id.
pub open spec fn spec_valid_signature(t: TxModel) -> bool {
    &&& t.sig is Some
    &&& t.from == spec_calc_address(t.pub_key)
    &&& spec_verify_signature(t.pub_key, t.id, t.sig.unwrap())
}

/// `validSignature` runs without a panic: the signature check is only reached
/// when a signature is present and the address matches.
pub open spec fn valid_signature_safe(t: TxModel) -> bool {
    (t.sig is Some && t.from == spec_calc_address(t.pub_key)) ==> signature_checkable(
        t.pub_key,
        t.id,
        t.sig.unwrap(),
    )
}

/// The JSON text of one output.
pub open spec fn json_output(p: (Seq<char>, i32)) -> Seq<char> {
    seq!['['] + json_str(p.0) + seq![','] + dec_int(p.1 as int) + seq![']']
}

/// The JSON text of the outputs.
pub open spec fn json_outputs(outs: Seq<(Seq<char>, i32)>) -> Seq<char> {
    seq!['['] + json_join(Seq::new(outs.len(), |i: int| json_output(outs[i]))) + seq![']']
}

/// The JSON text of a transaction.
#[verifier::opaque]
pub open spec fn json_tx(t: TxModel) -> Seq<char> {
    "{\"from\":"@ + json_str(t.from) + ",\"nonce\":"@ + dec_int(t.nonce as int) + ",\"pub_key\":"@
        + json_str(t.pub_key) + ",\"sig\":"@ + json_opt_str(t.sig) + ",\"fee\":"@ + dec_int(
        t.fee as int,
    ) + ",\"outputs\":"@ + json_outputs(t.outputs) + ",\"data\":"@ + json_str(t.data) + ",\"id\":"@
        + json_str(t.id) + "}"@
}

/// The text hashed for a transaction's id: `TX ` and the JSON text of the
/// transaction with an empty id.
pub open spec fn tx_id_preimage(t: TxModel) -> Seq<char> {
    "TX "@ + json_tx(TxModel { id: Seq::empty(), ..t })
}

/// A new transaction with the given fields: its id is the hash of `TX ` and
/// its JSON text with an empty id.
pub open spec fn spec_new_tx(
    from: Seq<char>,
    nonce: i32,
    pub_key: Seq<char>,
    sig: Option<Seq<char>>,
    fee: i32,
    outputs: Seq<(Seq<char>, i32)>,
    data: Seq<char>,
) -> TxModel {
    let t0 = TxModel { from, nonce, pub_key, sig, fee, outputs, data, id: Seq::empty() };
    TxModel { id: spec_hash(tx_id_preimage(t0)), ..t0 }
}

/// One step of a comma-separated list.
pub proof fn lemma_join_step(items: Seq<Seq<char>>, i: int)
    requires
        0 <= i < items.len(),
    ensures
        json_join(items.take(i + 1)) == (if i == 0 {
            items[0]
        } else {
            json_join(items.take(i)) + seq![','] + items[i]
        }),
{
    assert(items.take(i + 1).drop_last() =~= items.take(i));
    if i == 0 {
        assert(items.take(1).len() == 1);
    }
}

/// Appends the JSON text of one output.
fn push_output(out: &mut Vec<char>, p: &(String, i32))
    ensures
        final(out)@ == old(out)@ + json_output((p.0@, p.1)),
{
    out.push('[');
    push_json_str(out, p.0.as_str());
    out.push(',');
    push_i64(out, p.1 as i64);
    out.push(']');
    assert(final(out)@ =~= old(out)@ + json_output((p.0@, p.1)));
}

/// Appends the JSON text of the outputs.
fn push_outputs(out: &mut Vec<char>, outs: &Vec<(String, i32)>)
    ensures
        final(out)@ == old(out)@ + json_outputs(outputs_view(outs@)),
{
    let ghost ov = outputs_view(outs@);
    let ghost items = Seq::new(ov.len(), |i: int| json_output(ov[i]));
    let ghost start = out@;
    out.push('[');
    let n = outs.len();
    for i in 0..n
        invariant
            n == outs@.len(),
            ov == outputs_view(outs@),
            items == Seq::new(ov.len(), |i: int| json_output(ov[i])),
            out@ == start + seq!['['] + json_join(items.take(i as int)),
    {
        proof {
            lemma_join_step(items, i as int);
        }
        if i > 0 {
            out.push(',');
        }
        push_output(out, &outs[i]);
        assert(out@ =~= start + seq!['['] + json_join(items.take(i + 1)));
    }
    out.push(']');
    assert(items.take(n as int) =~= items);
    assert(out@ =~= start + json_outputs(ov));
}

/// Appends the JSON text of `t`.
pub(crate) fn push_tx_json(out: &mut Vec<char>, t: &transaction)
    ensures
        final(out)@ == old(out)@ + json_tx(t@),
{
    let ghost start = out@;
    push_str(out, "{\"from\":");
    push_json_str(out, t.from.as_str());
    push_str(out, ",\"nonce\":");
    push_i64(out, t.nonce as i64);
    push_str(out, ",\"pub_key\":");
    push_json_str(out, t.pub_key.as_str());
    push_str(out, ",\"sig\":");
    push_json_opt_str(out, &t.sig);
    push_str(out, ",\"fee\":");
    push_i64(out, t.fee as i64);
    push_str(out, ",\"outputs\":");
    push_outputs(out, &t.outputs);
    push_str(out, ",\"data\":");
    push_json_str(out, t.data.as_str());
    push_str(out, ",\"id\":");
    push_json_str(out, t.id.as_str());
    push_str(out, "}");
    reveal(json_tx);
    assert(out@ =~= start + json_tx(t@));
}

/// A copy of the outputs.
fn clone_outputs(outs: &Vec<(String, i32)>) -> (res: Vec<(String, i32)>)
    ensures
        outputs_view(res@) == outputs_view(outs@),
{
    let mut res: Vec<(String, i32)> = Vec::new();
    let n = outs.len();
    for i in 0..n
        invariant
            n == outs@.len(),
            res@.len() == i,
            forall|j: int|
                0 <= j < i ==> (#[trigger] res@[j]).0@ == outs@[j].0@ && res@[j].1 == outs@[j].1,
    {
        res.push((outs[i].0.clone(), outs[i].1));
    }
    assert(outputs_view(res@) =~= outputs_view(outs@));
    res
}

/// A copy of an optional string.
pub(crate) fn clone_opt_string(o: &Option<String>) -> (res: Option<String>)
    ensures
        opt_view(res) == opt_view(*o),
{
    match o {
        Some(s) => Some(s.clone()),
        None => None,
    }
}

/// Whether two optional strings are equal.
pub(crate) fn opt_str_eq(a: &Option<String>, b: &Option<String>) -> (res: bool)
    ensures
        res == (opt_view(*a) == opt_view(*b)),
{
    match a {
        Some(x) => match b {
            Some(y) => *x == *y,
            None => false,
        },
        None => b.is_none(),
    }
}

/// Whether two lists of outputs are equal.
fn outputs_eq(a: &Vec<(String, i32)>, b: &Vec<(String, i32)>) -> (res: bool)
    ensures
        res == (outputs_view(a@) == outputs_view(b@)),
{
    if a.len() != b.len() {
        assert(outputs_view(a@).len() != outputs_view(b@).len());
        return false;
    }
    let n = a.len();
    for i in 0..n
        invariant
            n == a@.len(),
            n == b@.len(),
            forall|j: int| 0 <= j < i ==> outputs_view(a@)[j] == outputs_view(b@)[j],
    {
        if !(a[i].0 == b[i].0 && a[i].1 == b[i].1) {
            assert(outputs_view(a@)[i as int] != outputs_view(b@)[i as int]);
            return false;
        }
    }
    assert(outputs_view(a@) =~= outputs_view(b@));
    true
}

impl ViewClone for transaction {
    fn view_clone(&self) -> (res: transaction) {
        let res = transaction {
            from: self.from.clone(),
            nonce: self.nonce,
            pub_key: self.pub_key.clone(),
            sig: clone_opt_string(&self.sig),
            fee: self.fee,
            outputs: clone_outputs(&self.outputs),
            data: self.data.clone(),
            id: self.id.clone(),
        };
        assert(res@ =~= self@);
        res
    }
}

impl transaction {
    /// A transaction with the given fields; its id is the hash of `TX ` and the
    /// JSON text of the transaction with an empty id.
    pub fn new(
        from: &str,
        nonce: i32,
        pub_key: &str,
        sig: Option<String>,
        fee: i32,
        outputs: Vec<(String, i32)>,
        data: &str,
    ) -> (res: transaction)
        ensures
            res@ == spec_new_tx(
                from@,
                nonce,
                pub_key@,
                opt_view(sig),
                fee,
                outputs_view(outputs@),
                data@,
            ),
    {
        let mut tx = transaction {
            from: from.to_owned(),
            nonce,
            pub_key: pub_key.to_owned(),
            sig,
            fee,
            outputs,
            data: data.to_owned(),
            id: String::new(),
        };
        let mut text: Vec<char> = Vec::new();
        push_str(&mut text, "TX ");
        push_tx_json(&mut text, &tx);
        let pre = string_from_chars(text.as_slice());
        let id = hash(pre.as_str());
        let ghost t0 = tx@;
        tx.id = id;
        assert(TxModel { id: Seq::empty(), ..t0 } =~= t0);
        assert(tx@ =~= spec_new_tx(from@, nonce, pub_key@, t0.sig, fee, t0.outputs, data@));
        tx
    }

    /// Signs the transaction's id with `priv_key`.
    pub fn sign(&mut self, priv_key: &str)
        ensures
            final(self)@ == (TxModel { sig: Some(priv_key@ + old(self)@.id), ..old(self)@ }),
    {
        self.sig = Some(sign(priv_key, self.id.as_str()));
        assert(final(self)@ =~= (TxModel { sig: Some(priv_key@ + old(self)@.id), ..old(self)@ }));
    }

    /// Whether the transaction carries a signature of its id that matches its
    /// public key, and its sender is that key's address.
    pub fn validSignature(&self) -> (res: bool)
        requires
            valid_signature_safe(self@),
        ensures
            res == spec_valid_signature(self@),
    {
        match &self.sig {
            None => false,
            Some(sig) => addressMatchesKey(self.from.as_str(), self.pub_key.as_str())
                && verifySignature(self.pub_key.as_str(), self.id.as_str(), sig.as_str()),
        }
    }

    /// Whether `validSignature` can run without a panic.
    pub fn signatureSafe(&self) -> (res: bool)
        ensures
            res == valid_signature_safe(self@),
    {
        match &self.sig {
            None => true,
            Some(sig) => !addressMatchesKey(self.from.as_str(), self.pub_key.as_str())
                || signatureCheckable(self.pub_key.as_str(), self.id.as_str(), sig.as_str()),
        }
    }

    /// The fee plus every output, or `None` where adding them up leaves `i32`.
    pub fn checkedTotalOutput(&self) -> (res: Option<i32>)
        ensures
            res == (if total_output_fits(self@) {
                Some(spec_total_output(self@) as i32)
            } else {
                None::<i32>
            }),
            res matches Some(v) ==> v == spec_total_output(self@),
    {
        let ghost outs = outputs_view(self.outputs@);
        let mut sum: i32 = self.fee;
        let n = self.outputs.len();
        assert(outs.take(0) =~= Seq::<(Seq<char>, i32)>::empty());
        for i in 0..n
            invariant
                n == outs.len(),
                outs == outputs_view(self.outputs@),
                sum == self.fee + amounts_sum(outs.take(i as int)),
                forall|k: int|
                    1 <= k <= i ==> fits_i32(self.fee + #[trigger] amounts_sum(outs.take(k))),
        {
            assert(outs.take(i + 1).drop_last() =~= outs.take(i as int));
            assert(amounts_sum(outs.take(i + 1)) == amounts_sum(outs.take(i as int)) + outs[i as int].1);
            let next: i64 = sum as i64 + self.outputs[i].1 as i64;
            if next < i32::MIN as i64 || next > i32::MAX as i64 {
                assert(!running_sums_fit(self.fee as int, outs)) by {
                    assert(outs.take(i + 1).take(i + 1) =~= outs.take(i + 1));
                }
                return None;
            }
            sum = next as i32;
            assert forall|k: int| 1 <= k <= i + 1 implies fits_i32(
                self.fee + #[trigger] amounts_sum(outs.take(k)),
            ) by {}
        }
        assert(outs.take(n as int) =~= outs);
        assert(running_sums_fit(self.fee as int, outs)) by {
            assert forall|k: int| 1 <= k <= outs.len() implies fits_i32(
                self.fee + #[trigger] amounts_sum(outs.take(k)),
            ) by {}
        }
        Some(sum)
    }

    /// The fee plus every output.
    pub fn totalOutput(&self) -> (res: i32)
        requires
            total_output_fits(self@),
        ensures
            res == spec_total_output(self@),
    {
        proof {
            let outs = self@.outputs;
            if outs.len() > 0 {
                assert(outs.take(outs.len() as int) =~= outs);
            }
        }
        self.checkedTotalOutput().unwrap()
    }

    /// Whether the sender's balance covers the fee and the outputs.
    pub fn sufficientFunds(&self, balances: &StrMap<i32>) -> (res: bool)
        requires
            total_output_fits(self@),
            alist_contains(balances@, self.from@),
        ensures
            res == (spec_total_output(self@) <= alist_get(balances@, self.from@).unwrap()),
    {
        let total = self.totalOutput();
        let bal = balances.get(self.from.as_str());
        total <= *bal.unwrap()
    }

    /// Whether two transactions hold the same fields.
    pub fn sameAs(&self, other: &transaction) -> (res: bool)
        ensures
            res == (self@ == other@),
    {
        let r = self.from == other.from && self.nonce == other.nonce && self.pub_key
            == other.pub_key && opt_str_eq(&self.sig, &other.sig) && self.fee == other.fee
            && outputs_eq(&self.outputs, &other.outputs) && self.data == other.data && self.id
            == other.id;
        assert(r ==> self@ =~= other@);
        r
    }
}


/// A transaction whose public key is that of an ASCII key pair and whose
/// sender is that key's address has a valid signature exactly where the
/// signature was made with that private key over the transaction's id; and
/// checking it cannot panic. So a signature made with another key, or for
/// another id (a transaction changed after signing), is invalid.
pub proof fn law_valid_signature_binds_key_and_id(
    t: TxModel,
    priv_key: Seq<char>,
    last: char,
    signer: Seq<char>,
    signed: Seq<char>,
)
    requires
        crate::utils::ascii_key_pair(priv_key, last),
        crate::utils::ascii_key_pair(signer, last),
        t.pub_key == priv_key.push(last),
        t.from == spec_calc_address(t.pub_key),
        t.sig == Some(signer + signed),
    ensures
        valid_signature_safe(t),
        spec_valid_signature(t) <==> (signer == priv_key && signed == t.id),
{
    crate::utils::law_signature_binds_key_and_message(priv_key, last, signer, signed, t.id);
}

} // verus!

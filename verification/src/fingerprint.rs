//! The conditions that a score sidecar is made under, as marker text and as metadata.

use vstd::prelude::*;
use vstd::string::*;

use crate::batch::BucketMode;
use crate::build_identity::{is_known_build, known_build};
use crate::sidecar::{append_extension, is_complete, is_resumable, DiskState};
use crate::text::{
    decimal, decimal_text, lemma_decimal, lemma_decimal_injective, lemma_signed_injective,
    lemma_sums, push_decimal_wide, push_signed, signed_decimal, without,
};
use crate::yo::{hex_word, lemma_hex_word_injective, push_hex_word};

verus! {

/// A progress coefficient file.
#[derive(Debug)]
pub struct ProgressCoeff {
    pub path: String,
    pub sha256: String,
}

/// Everything that changes the scores of a run.
#[derive(Debug)]
pub struct RescoreConditions {
    /// Version of the tool.
    pub tool_version: String,
    /// Short revision of the build: marked where its tree was changed, and `unknown` where it has
    /// none.
    pub build_commit: String,
    /// A number that no earlier run had. It counts only for a build that is not known by its
    /// revision.
    pub run_id: u128,
    /// Path of the input, resolved.
    pub input_path: String,
    pub input_size: u64,
    /// When the input was last changed, in nanoseconds.
    pub input_mtime_ns: u128,
    pub input_records: u64,
    /// Path of the network, resolved.
    pub net_path: String,
    pub net_size: u64,
    pub net_sha256: String,
    /// Where the weights come from: a quantised network or a checkpoint.
    pub weights_source: String,
    pub arch: String,
    pub feature_set: String,
    pub bucket_mode: BucketMode,
    pub num_buckets: usize,
    pub progress_coeff: Option<ProgressCoeff>,
    /// The bits of the score scale.
    pub score_scale_bits: u32,
    /// The score scale as text.
    pub score_scale: String,
    pub score_clip: i16,
    pub batch_size: usize,
}

/// A key with its value.
pub type Pair = (&'static str, String);

/// A key with its value, as text.
pub type TextPair = (Seq<char>, Seq<char>);

/// The conditions as an ordered list. Marker text and metadata are both made from it, so that they
/// never tell of different conditions.
#[derive(Debug)]
pub struct Fingerprint {
    pairs: Vec<Pair>,
}

/// The texts of a list.
pub open spec fn texts_of(pairs: Seq<Pair>) -> Seq<TextPair> {
    Seq::new(pairs.len(), |k: int| (pairs[k].0@, pairs[k].1@))
}

/// The conditions of the tool, the input and the network.
pub open spec fn source_texts(c: RescoreConditions) -> Seq<TextPair> {
    seq![
        ("version"@, "1"@),
        ("mode"@, "gpu-nnue-fp32"@),
        ("tool_version"@, c.tool_version@),
        ("build_commit"@, c.build_commit@),
        ("input_path"@, c.input_path@),
        ("input_size"@, decimal(c.input_size as nat)),
        ("input_mtime_ns"@, decimal(c.input_mtime_ns as nat)),
        ("input_records"@, decimal(c.input_records as nat)),
        ("net_path"@, c.net_path@),
        ("net_size"@, decimal(c.net_size as nat)),
        ("net_sha256"@, c.net_sha256@),
        ("weights_source"@, c.weights_source@),
        ("arch"@, c.arch@),
        ("feature_set"@, c.feature_set@),
        ("bucket_mode"@, c.bucket_mode.name_text()),
        ("num_buckets"@, decimal(c.num_buckets as nat)),
    ]
}

/// The conditions of the progress model, where there is one.
pub open spec fn coeff_texts(c: RescoreConditions) -> Seq<TextPair> {
    match c.progress_coeff {
        Some(coeff) => seq![
            ("progress_coeff_path"@, coeff.path@),
            ("progress_coeff_sha256"@, coeff.sha256@),
        ],
        None => seq![],
    }
}

/// The conditions of the scores.
pub open spec fn score_texts(c: RescoreConditions) -> Seq<TextPair> {
    seq![
        ("score_scale_bits"@, "0x"@ + hex_word(c.score_scale_bits)),
        ("score_scale"@, c.score_scale@),
        ("score_clip"@, signed_decimal(c.score_clip as int)),
        ("batch_size"@, decimal(c.batch_size as nat)),
    ]
}

/// The number of the run, where its build is not known by its revision: what such a build computes
/// cannot be told from its name, so nothing that it wrote is taken up by another run.
pub open spec fn run_texts(c: RescoreConditions) -> Seq<TextPair> {
    if known_build(c.build_commit@) {
        seq![]
    } else {
        seq![("run_id"@, decimal(c.run_id as nat))]
    }
}

/// The list for some conditions.
pub open spec fn condition_texts(c: RescoreConditions) -> Seq<TextPair> {
    source_texts(c) + coeff_texts(c) + score_texts(c) + run_texts(c)
}

/// One line of the marker text.
pub open spec fn line_of(pair: TextPair) -> Seq<char> {
    pair.0 + "="@ + pair.1 + "\n"@
}

/// The marker text: one line for each pair, in order.
pub open spec fn marker_text(pairs: Seq<TextPair>) -> Seq<char>
    decreases pairs.len(),
{
    if pairs.len() == 0 {
        seq![]
    } else {
        marker_text(pairs.drop_last()) + line_of(pairs.last())
    }
}

fn push_pair(pairs: &mut Vec<Pair>, key: &'static str, value: String)
    ensures
        texts_of(final(pairs)@) == texts_of(old(pairs)@).push((key@, value@)),
{
    let ghost text = value@;
    pairs.push((key, value));
    assert(texts_of(pairs@) =~= texts_of(old(pairs)@).push((key@, text)));
}

impl Fingerprint {
    /// The list as text.
    pub closed spec fn texts(&self) -> Seq<TextPair> {
        texts_of(self.pairs@)
    }

    /// The fingerprint of some conditions.
    pub fn build(c: &RescoreConditions) -> (r: Self)
        ensures
            r.texts() == condition_texts(*c),
    {
        let mut pairs: Vec<Pair> = Vec::new();
        push_pair(&mut pairs, "version", "1".to_owned());
        push_pair(&mut pairs, "mode", "gpu-nnue-fp32".to_owned());
        push_pair(&mut pairs, "tool_version", c.tool_version.clone());
        push_pair(&mut pairs, "build_commit", c.build_commit.clone());
        push_pair(&mut pairs, "input_path", c.input_path.clone());
        push_pair(&mut pairs, "input_size", decimal_text(c.input_size));
        let mut mtime = String::new();
        push_decimal_wide(&mut mtime, c.input_mtime_ns);
        assert(mtime@ =~= decimal(c.input_mtime_ns as nat));
        push_pair(&mut pairs, "input_mtime_ns", mtime);
        push_pair(&mut pairs, "input_records", decimal_text(c.input_records));
        push_pair(&mut pairs, "net_path", c.net_path.clone());
        push_pair(&mut pairs, "net_size", decimal_text(c.net_size));
        push_pair(&mut pairs, "net_sha256", c.net_sha256.clone());
        push_pair(&mut pairs, "weights_source", c.weights_source.clone());
        push_pair(&mut pairs, "arch", c.arch.clone());
        push_pair(&mut pairs, "feature_set", c.feature_set.clone());
        push_pair(&mut pairs, "bucket_mode", c.bucket_mode.canonical_name().to_owned());
        push_pair(&mut pairs, "num_buckets", decimal_text(c.num_buckets as u64));
        if let Some(coeff) = &c.progress_coeff {
            push_pair(&mut pairs, "progress_coeff_path", coeff.path.clone());
            push_pair(&mut pairs, "progress_coeff_sha256", coeff.sha256.clone());
        }
        let mut bits = "0x".to_owned();
        push_hex_word(&mut bits, c.score_scale_bits);
        push_pair(&mut pairs, "score_scale_bits", bits);
        push_pair(&mut pairs, "score_scale", c.score_scale.clone());
        let mut clip = String::new();
        push_signed(&mut clip, c.score_clip as i64);
        assert(clip@ =~= signed_decimal(c.score_clip as int));
        push_pair(&mut pairs, "score_clip", clip);
        push_pair(&mut pairs, "batch_size", decimal_text(c.batch_size as u64));
        if !is_known_build(c.build_commit.as_str()) {
            let mut run_id = String::new();
            push_decimal_wide(&mut run_id, c.run_id);
            assert(run_id@ =~= decimal(c.run_id as nat));
            push_pair(&mut pairs, "run_id", run_id);
        }
        assert(texts_of(pairs@) =~= condition_texts(*c));
        Fingerprint { pairs }
    }

    /// The text for the markers of a sidecar.
    pub fn text(&self) -> (r: String)
        ensures
            r@ == marker_text(self.texts()),
    {
        let mut out = String::new();
        let mut i: usize = 0;
        let ghost all = self.texts();
        assert(all.take(0) =~= seq![]);
        assert(out@ =~= marker_text(all.take(0)));
        while i < self.pairs.len()
            invariant
                i <= self.pairs@.len(),
                all == texts_of(self.pairs@),
                out@ == marker_text(all.take(i as int)),
            decreases self.pairs@.len() - i,
        {
            let ghost before = out@;
            out.append(self.pairs[i].0);
            out.append("=");
            out.append(self.pairs[i].1.as_str());
            out.append("\n");
            proof {
                let more = all.take(i + 1);
                assert(more.drop_last() =~= all.take(i as int));
                assert(more.last() == all[i as int]);
                assert(out@ =~= before + line_of(all[i as int]));
            }
            i += 1;
        }
        assert(all.take(i as int) =~= all);
        out
    }
}

/// The path of the metadata of a sidecar.
pub fn meta_json_path(sidecar: &str) -> (r: String)
    ensures
        r@ == sidecar@ + ".meta.json"@,
{
    append_extension(sidecar, ".meta.json")
}

#[verifier::external_type_specification]
#[verifier::external_body]
#[verifier::reject_recursive_types(K)]
#[verifier::reject_recursive_types(V)]
pub struct ExJsonMap<K, V>(serde_json::Map<K, V>);

#[verifier::external_type_specification]
#[verifier::external_body]
pub struct ExJsonValue(serde_json::Value);

#[verifier::external_type_specification]
#[verifier::external_body]
pub struct ExJsonError(serde_json::Error);

/// The entries of a JSON object whose values are texts.
pub uninterp spec fn json_texts(object: serde_json::Map<String, serde_json::Value>) -> Map<
    Seq<char>,
    Seq<char>,
>;

/// Whether every value of a JSON object is a text.
pub uninterp spec fn json_is_plain(
    object: serde_json::Map<String, serde_json::Value>,
) -> bool;

/// The pretty-printed form of a JSON object with these texts.
pub uninterp spec fn json_pretty(entries: Map<Seq<char>, Seq<char>>) -> Seq<char>;

/// No entries.
pub open spec fn no_texts() -> Map<Seq<char>, Seq<char>> {
    Map::empty()
}

/// `serde_json::Map::new`: an object without entries.
#[verifier::external_body]
fn json_object() -> (r: serde_json::Map<String, serde_json::Value>)
    ensures
        json_texts(r) == no_texts(),
        json_is_plain(r),
{
    serde_json::Map::new()
}

/// `serde_json::Map::insert` with a text: the entry of the key becomes the text, and the other
/// entries stay.
#[verifier::external_body]
fn json_insert(
    object: &mut serde_json::Map<String, serde_json::Value>,
    key: String,
    text: String,
)
    requires
        json_is_plain(*old(object)),
    ensures
        json_texts(*final(object)) == json_texts(*old(object)).insert(key@, text@),
        json_is_plain(*final(object)),
{
    object.insert(key, serde_json::Value::from(text));
}

/// `serde_json::to_string_pretty` of an object of texts: it succeeds, and what it prints is decided
/// by the entries alone. Its keys and values are texts, so nothing in it refuses to be printed, and
/// the printer writes to memory.
#[verifier::external_body]
fn json_print(object: serde_json::Map<String, serde_json::Value>) -> (r: Result<
    String,
    serde_json::Error,
>)
    requires
        json_is_plain(object),
    ensures
        r is Ok,
        r matches Ok(text) ==> text@ == json_pretty(json_texts(object)),
{
    serde_json::to_string_pretty(&serde_json::Value::Object(object))
}

/// The metadata could not be printed.
#[derive(Clone, Copy, Debug, PartialEq, Eq, Structural)]
pub struct MetaError;

impl MetaError {
    /// The text of the error.
    pub fn message(&self) -> (r: String)
        ensures
            r@ == "failed to print the sidecar metadata"@,
    {
        "failed to print the sidecar metadata".to_owned()
    }
}

/// What kind of label the scores are, by where the weights come from.
pub open spec fn label_kind(weights_source: Seq<char>) -> Seq<char> {
    if weights_source == "resume-ckpt"@ {
        "fp32_master"@
    } else {
        "fp32_dequantised"@
    }
}

/// How a score is made, for the reader of the metadata.
pub open spec fn score_formula() -> Seq<char> {
    "score[i] = clamp(round(net_output[i] * score_scale), -score_clip, score_clip)"@
}

/// The entries of the metadata before the conditions.
pub open spec fn meta_head(weights_source: Seq<char>) -> Map<Seq<char>, Seq<char>> {
    no_texts().insert("format"@, "i16-le-score-sidecar"@).insert(
        "label_kind"@,
        label_kind(weights_source),
    ).insert("score_formula"@, score_formula())
}

/// Entries with pairs put over them in order.
pub open spec fn with_pairs(
    entries: Map<Seq<char>, Seq<char>>,
    pairs: Seq<TextPair>,
) -> Map<Seq<char>, Seq<char>>
    decreases pairs.len(),
{
    if pairs.len() == 0 {
        entries
    } else {
        with_pairs(entries, pairs.drop_last()).insert(pairs.last().0, pairs.last().1)
    }
}

/// What became of the printed metadata.
pub fn meta_document(printed: Result<String, serde_json::Error>) -> (r: Result<String, MetaError>)
    ensures
        match printed {
            Ok(text) => r == Ok::<String, MetaError>(text),
            Err(_) => r == Err::<String, MetaError>(MetaError),
        },
{
    match printed {
        Ok(text) => Ok(text),
        Err(_) => Err(MetaError),
    }
}

impl Fingerprint {
    /// The entries of the metadata: what the sidecar is, and every condition.
    pub open spec fn meta_entries(&self, weights_source: Seq<char>) -> Map<Seq<char>, Seq<char>> {
        with_pairs(meta_head(weights_source), self.texts())
    }

    /// The metadata as a JSON object.
    pub fn meta_json(&self, weights_source: &str) -> (r: serde_json::Map<
        String,
        serde_json::Value,
    >)
        ensures
            json_texts(r) == self.meta_entries(weights_source@),
            json_is_plain(r),
    {
        let mut object = json_object();
        json_insert(&mut object, "format".to_owned(), "i16-le-score-sidecar".to_owned());
        let kind = if weights_source.to_owned() == "resume-ckpt".to_owned() {
            "fp32_master"
        } else {
            "fp32_dequantised"
        };
        json_insert(&mut object, "label_kind".to_owned(), kind.to_owned());
        json_insert(
            &mut object,
            "score_formula".to_owned(),
            "score[i] = clamp(round(net_output[i] * score_scale), -score_clip, score_clip)".to_owned(),
        );
        let mut i: usize = 0;
        let ghost all = self.texts();
        let ghost head = meta_head(weights_source@);
        assert(all.take(0) =~= seq![]);
        while i < self.pairs.len()
            invariant
                i <= self.pairs@.len(),
                all == texts_of(self.pairs@),
                json_is_plain(object),
                json_texts(object) == with_pairs(head, all.take(i as int)),
            decreases self.pairs@.len() - i,
        {
            json_insert(&mut object, self.pairs[i].0.to_owned(), self.pairs[i].1.clone());
            proof {
                let more = all.take(i + 1);
                assert(more.drop_last() =~= all.take(i as int));
                assert(more.last() == all[i as int]);
            }
            i += 1;
        }
        assert(all.take(i as int) =~= all);
        object
    }

    /// The text of the metadata file: the entries of the metadata, printed.
    pub fn meta_text(&self, weights_source: &str) -> (r: Result<String, MetaError>)
        ensures
            r is Ok,
            r matches Ok(text) ==> text@ == json_pretty(self.meta_entries(weights_source@)),
    {
        meta_document(json_print(self.meta_json(weights_source)))
    }
}

proof fn lemma_with_pairs_has_key(
    entries: Map<Seq<char>, Seq<char>>,
    pairs: Seq<TextPair>,
    k: int,
)
    requires
        0 <= k < pairs.len(),
        forall|j: int| k < j < pairs.len() ==> (#[trigger] pairs[j]).0 != pairs[k].0,
    ensures
        with_pairs(entries, pairs).contains_key(pairs[k].0),
        with_pairs(entries, pairs)[pairs[k].0] == pairs[k].1,
    decreases pairs.len(),
{
    if k < pairs.len() - 1 {
        let rest = pairs.drop_last();
        assert(rest[k] == pairs[k]);
        assert forall|j: int| k < j < rest.len() implies (#[trigger] rest[j]).0 != rest[k].0 by {
            assert(rest[j] == pairs[j]);
        }
        lemma_with_pairs_has_key(entries, rest, k);
        assert(pairs[pairs.len() - 1].0 != pairs[k].0);
    }
}

/// Marker and metadata tell of the same conditions: every pair of the marker text whose key does
/// not come again is an entry of the metadata, with the same value.
pub proof fn metadata_agrees_with_marker(f: Fingerprint, weights_source: Seq<char>, k: int)
    requires
        0 <= k < f.texts().len(),
        forall|j: int| k < j < f.texts().len() ==> (#[trigger] f.texts()[j]).0 != f.texts()[k].0,
    ensures
        f.meta_entries(weights_source).contains_key(f.texts()[k].0),
        f.meta_entries(weights_source)[f.texts()[k].0] == f.texts()[k].1,
{
    lemma_with_pairs_has_key(meta_head(weights_source), f.texts(), k);
}

/// Whether a pair makes one line whose key ends at its first equals sign.
pub open spec fn plain_pair(pair: TextPair) -> bool {
    without(pair.0, '=') && without(pair.0, '\n') && without(pair.1, '\n')
}

/// Whether all pairs of a list make lines of their own.
pub open spec fn plain_pairs(pairs: Seq<TextPair>) -> bool {
    forall|k: int| 0 <= k < pairs.len() ==> plain_pair(#[trigger] pairs[k])
}

proof fn lemma_line(pair: TextPair)
    requires
        plain_pair(pair),
    ensures
        line_of(pair).len() == pair.0.len() + pair.1.len() + 2,
        line_of(pair).last() == '\n',
        line_of(pair)[pair.0.len() as int] == '=',
        without(line_of(pair).drop_last(), '\n'),
        line_of(pair).take(pair.0.len() as int) == pair.0,
        line_of(pair).subrange(pair.0.len() as int + 1, line_of(pair).len() - 1) == pair.1,
{
    reveal_strlit("=");
    reveal_strlit("\n");
    let line = line_of(pair);
    assert(line.take(pair.0.len() as int) =~= pair.0);
    assert(line.subrange(pair.0.len() as int + 1, line.len() - 1) =~= pair.1);
    assert forall|i: int| 0 <= i < line.len() - 1 implies line.drop_last()[i] != '\n' by {
        if i < pair.0.len() {
            assert(line[i] == pair.0[i]);
        } else if i > pair.0.len() {
            assert(line[i] == pair.1[i - pair.0.len() - 1]);
        }
    }
}

proof fn lemma_line_injective(p: TextPair, q: TextPair)
    requires
        plain_pair(p),
        plain_pair(q),
        line_of(p) == line_of(q),
    ensures
        p == q,
{
    lemma_line(p);
    lemma_line(q);
    let a = p.0.len() as int;
    let b = q.0.len() as int;
    let line = line_of(p);
    if a < b {
        assert(line.take(b)[a] == line[a]);
        assert(q.0[a] == '=');
    }
    if b < a {
        assert(line.take(a)[b] == line[b]);
        assert(p.0[b] == '=');
    }
}

proof fn lemma_no_longer_line(a: Seq<char>, la: Seq<char>, b: Seq<char>, lb: Seq<char>)
    requires
        a + la == b + lb,
        la.len() > 0,
        lb.len() > 0,
        without(la.drop_last(), '\n'),
        b.len() == 0 || b.last() == '\n',
    ensures
        la.len() <= lb.len(),
{
    // A longer line would hold the end of the line before the other one.
    if la.len() > lb.len() {
        let text = a + la;
        let at = text.len() - lb.len() - 1;
        assert(text[at] == (b + lb)[at]);
        assert((b + lb)[at] == b.last());
        assert(text[at] == la[at - a.len()]);
        assert(la.drop_last()[at - a.len()] == la[at - a.len()]);
    }
}

/// A marker text tells its list: lists that make the same text are equal, where every pair makes
/// one line.
pub proof fn marker_text_tells_the_list(p: Seq<TextPair>, q: Seq<TextPair>)
    requires
        plain_pairs(p),
        plain_pairs(q),
        marker_text(p) == marker_text(q),
    ensures
        p == q,
    decreases p.len(),
{
    if p.len() > 0 {
        assert(plain_pair(p[p.len() - 1]));
        lemma_line(p.last());
        assert(marker_text(p).len() > 0);
    }
    if q.len() > 0 {
        assert(plain_pair(q[q.len() - 1]));
        lemma_line(q.last());
        assert(marker_text(q).len() > 0);
    }
    if p.len() == 0 || q.len() == 0 {
        assert(p =~= q);
    } else {
        let (a, b) = (p.drop_last(), q.drop_last());
        let (la, lb) = (line_of(p.last()), line_of(q.last()));
        lemma_marker_ends(a);
        lemma_marker_ends(b);
        lemma_no_longer_line(marker_text(a), la, marker_text(b), lb);
        lemma_no_longer_line(marker_text(b), lb, marker_text(a), la);
        lemma_sums(marker_text(a), la, marker_text(b), lb);
        lemma_line_injective(p.last(), q.last());
        assert forall|k: int| 0 <= k < a.len() implies plain_pair(#[trigger] a[k]) by {
            assert(a[k] == p[k]);
        }
        assert forall|k: int| 0 <= k < b.len() implies plain_pair(#[trigger] b[k]) by {
            assert(b[k] == q[k]);
        }
        marker_text_tells_the_list(a, b);
        assert(p =~= a.push(p.last()));
        assert(q =~= b.push(q.last()));
    }
}

proof fn lemma_marker_ends(pairs: Seq<TextPair>)
    ensures
        marker_text(pairs).len() == 0 || marker_text(pairs).last() == '\n',
{
    if pairs.len() > 0 {
        reveal_strlit("\n");
        let line = line_of(pairs.last());
        assert(marker_text(pairs).last() == line.last());
    }
}

/// Whether no text among the conditions has a line break.
pub open spec fn single_lines(c: RescoreConditions) -> bool {
    &&& without(c.tool_version@, '\n')
    &&& without(c.build_commit@, '\n')
    &&& without(c.input_path@, '\n')
    &&& without(c.net_path@, '\n')
    &&& without(c.net_sha256@, '\n')
    &&& without(c.weights_source@, '\n')
    &&& without(c.arch@, '\n')
    &&& without(c.feature_set@, '\n')
    &&& without(c.score_scale@, '\n')
    &&& c.progress_coeff matches Some(coeff) ==> without(coeff.path@, '\n') && without(
        coeff.sha256@,
        '\n',
    )
}

/// Whether two runs have the same conditions. Runs of builds that are not known by their revision
/// have them only where they are the same run.
pub open spec fn same_conditions(a: RescoreConditions, b: RescoreConditions) -> bool {
    &&& a.tool_version@ == b.tool_version@
    &&& a.build_commit@ == b.build_commit@
    &&& a.input_path@ == b.input_path@
    &&& a.input_size == b.input_size
    &&& a.input_mtime_ns == b.input_mtime_ns
    &&& a.input_records == b.input_records
    &&& a.net_path@ == b.net_path@
    &&& a.net_size == b.net_size
    &&& a.net_sha256@ == b.net_sha256@
    &&& a.weights_source@ == b.weights_source@
    &&& a.arch@ == b.arch@
    &&& a.feature_set@ == b.feature_set@
    &&& a.bucket_mode == b.bucket_mode
    &&& a.num_buckets == b.num_buckets
    &&& match (a.progress_coeff, b.progress_coeff) {
        (Some(x), Some(y)) => x.path@ == y.path@ && x.sha256@ == y.sha256@,
        (None, None) => true,
        _ => false,
    }
    &&& a.score_scale_bits == b.score_scale_bits
    &&& a.score_scale@ == b.score_scale@
    &&& a.score_clip == b.score_clip
    &&& a.batch_size == b.batch_size
    &&& !known_build(a.build_commit@) ==> a.run_id == b.run_id
}

proof fn lemma_source_plain(c: RescoreConditions)
    requires
        single_lines(c),
    ensures
        plain_pairs(source_texts(c)),
{
    reveal_strlit("version");
    reveal_strlit("mode");
    reveal_strlit("tool_version");
    reveal_strlit("build_commit");
    reveal_strlit("input_path");
    reveal_strlit("input_size");
    reveal_strlit("input_mtime_ns");
    reveal_strlit("input_records");
    reveal_strlit("net_path");
    reveal_strlit("net_size");
    reveal_strlit("net_sha256");
    reveal_strlit("weights_source");
    reveal_strlit("arch");
    reveal_strlit("feature_set");
    reveal_strlit("bucket_mode");
    reveal_strlit("num_buckets");
    reveal_strlit("1");
    reveal_strlit("gpu-nnue-fp32");
    reveal_strlit("progress8kpabs");
    reveal_strlit("kingrank9");
    lemma_decimal(c.input_size as nat);
    lemma_decimal(c.input_mtime_ns as nat);
    lemma_decimal(c.input_records as nat);
    lemma_decimal(c.net_size as nat);
    lemma_decimal(c.num_buckets as nat);
    let s = source_texts(c);
    assert(plain_pair(s[0]));
    assert(plain_pair(s[1]));
    assert(plain_pair(s[2]));
    assert(plain_pair(s[3]));
    assert(plain_pair(s[4]));
    assert(plain_pair(s[5]));
    assert(plain_pair(s[6]));
    assert(plain_pair(s[7]));
    assert(plain_pair(s[8]));
    assert(plain_pair(s[9]));
    assert(plain_pair(s[10]));
    assert(plain_pair(s[11]));
    assert(plain_pair(s[12]));
    assert(plain_pair(s[13]));
    assert(plain_pair(s[14]));
    assert(plain_pair(s[15]));
}

proof fn lemma_rest_plain(c: RescoreConditions)
    requires
        single_lines(c),
    ensures
        plain_pairs(coeff_texts(c)),
        plain_pairs(score_texts(c)),
        plain_pairs(run_texts(c)),
{
    reveal_strlit("progress_coeff_path");
    reveal_strlit("progress_coeff_sha256");
    reveal_strlit("score_scale_bits");
    reveal_strlit("score_scale");
    reveal_strlit("score_clip");
    reveal_strlit("batch_size");
    reveal_strlit("run_id");
    reveal_strlit("0x");
    lemma_decimal(c.batch_size as nat);
    lemma_decimal(c.run_id as nat);
    if c.score_clip < 0 {
        lemma_decimal((-c.score_clip) as nat);
    } else {
        lemma_decimal(c.score_clip as nat);
    }
    let s = score_texts(c);
    assert(without("0x"@, '\n'));
    assert(without(s[0].1, '\n'));
    assert(plain_pair(s[0]));
    assert(plain_pair(s[1]));
    assert(plain_pair(s[2]));
    assert(plain_pair(s[3]));
    if c.progress_coeff is Some {
        assert(plain_pair(coeff_texts(c)[0]));
        assert(plain_pair(coeff_texts(c)[1]));
    }
    if !known_build(c.build_commit@) {
        assert(plain_pair(run_texts(c)[0]));
    }
}

proof fn lemma_conditions_plain(c: RescoreConditions)
    requires
        single_lines(c),
    ensures
        plain_pairs(condition_texts(c)),
{
    lemma_source_plain(c);
    lemma_rest_plain(c);
    let all = condition_texts(c);
    let (s, f, e, r) = (source_texts(c), coeff_texts(c), score_texts(c), run_texts(c));
    assert forall|k: int| 0 <= k < all.len() implies plain_pair(#[trigger] all[k]) by {
        let (x, y, z) = (s.len() as int, (s + f).len() as int, (s + f + e).len() as int);
        if k < x {
            assert(all[k] == s[k]);
        } else if k < y {
            assert(all[k] == f[k - x]);
        } else if k < z {
            assert(all[k] == e[k - y]);
        } else {
            assert(all[k] == r[k - z]);
        }
    }
}

proof fn lemma_lists_tell_conditions(a: RescoreConditions, b: RescoreConditions)
    requires
        condition_texts(a) == condition_texts(b),
    ensures
        same_conditions(a, b),
{
    let (sa, fa, ea, ra) = (source_texts(a), coeff_texts(a), score_texts(a), run_texts(a));
    let (sb, fb, eb, rb) = (source_texts(b), coeff_texts(b), score_texts(b), run_texts(b));
    assert(condition_texts(a) =~= sa + (fa + (ea + ra)));
    assert(condition_texts(b) =~= sb + (fb + (eb + rb)));
    assert(sa.len() == 16 && sb.len() == 16 && ea.len() == 4 && eb.len() == 4);
    lemma_sums(sa, fa + (ea + ra), sb, fb + (eb + rb));
    assert((fa + (ea + ra)).len() == (fb + (eb + rb)).len());
    lemma_sums(fa, ea + ra, fb, eb + rb);
    lemma_sums(ea, ra, eb, rb);
    assert(sa[2].1 == sb[2].1);
    assert(sa[3].1 == sb[3].1);
    assert(sa[4].1 == sb[4].1);
    assert(sa[5].1 == sb[5].1);
    assert(sa[6].1 == sb[6].1);
    assert(sa[7].1 == sb[7].1);
    assert(sa[8].1 == sb[8].1);
    assert(sa[9].1 == sb[9].1);
    assert(sa[10].1 == sb[10].1);
    assert(sa[11].1 == sb[11].1);
    assert(sa[12].1 == sb[12].1);
    assert(sa[13].1 == sb[13].1);
    assert(sa[14].1 == sb[14].1);
    assert(sa[15].1 == sb[15].1);
    lemma_decimal_injective(a.input_size as nat, b.input_size as nat);
    lemma_decimal_injective(a.input_mtime_ns as nat, b.input_mtime_ns as nat);
    lemma_decimal_injective(a.input_records as nat, b.input_records as nat);
    lemma_decimal_injective(a.net_size as nat, b.net_size as nat);
    lemma_decimal_injective(a.num_buckets as nat, b.num_buckets as nat);
    reveal_strlit("progress8kpabs");
    reveal_strlit("kingrank9");
    assert("progress8kpabs"@.len() != "kingrank9"@.len());
    if a.progress_coeff is Some {
        assert(fa[0].1 == fb[0].1);
        assert(fa[1].1 == fb[1].1);
    }
    assert(ea[0].1 == eb[0].1);
    assert(ea[1].1 == eb[1].1);
    assert(ea[2].1 == eb[2].1);
    assert(ea[3].1 == eb[3].1);
    lemma_sums("0x"@, hex_word(a.score_scale_bits), "0x"@, hex_word(b.score_scale_bits));
    lemma_hex_word_injective(a.score_scale_bits, b.score_scale_bits);
    lemma_signed_injective(a.score_clip as int, b.score_clip as int);
    lemma_decimal_injective(a.batch_size as nat, b.batch_size as nat);
    if !known_build(a.build_commit@) {
        assert(ra[0].1 == rb[0].1);
        lemma_decimal_injective(a.run_id as nat, b.run_id as nat);
    }
}

/// Any changed condition changes the marker text: conditions with the same text are the same, where
/// no text among them has a line break.
pub proof fn marker_text_tells_the_conditions(a: RescoreConditions, b: RescoreConditions)
    requires
        single_lines(a),
        single_lines(b),
        marker_text(condition_texts(a)) == marker_text(condition_texts(b)),
    ensures
        condition_texts(a) == condition_texts(b),
        same_conditions(a, b),
{
    lemma_conditions_plain(a);
    lemma_conditions_plain(b);
    marker_text_tells_the_list(condition_texts(a), condition_texts(b));
    lemma_lists_tell_conditions(a, b);
}

/// A build that is not known by its revision never makes the text of another run, whatever the
/// other conditions are.
pub proof fn unknown_builds_match_no_other_run(a: RescoreConditions, b: RescoreConditions)
    requires
        single_lines(a),
        single_lines(b),
        !known_build(a.build_commit@),
        a.run_id != b.run_id,
    ensures
        marker_text(condition_texts(a)) != marker_text(condition_texts(b)),
        marker_text(condition_texts(b)) != marker_text(condition_texts(a)),
{
    if marker_text(condition_texts(a)) == marker_text(condition_texts(b)) {
        marker_text_tells_the_conditions(a, b);
    }
}

/// A sidecar whose markers were written under other conditions is made anew: it is neither taken as
/// complete nor resumed. So a changed condition, and every new run of a build that is not known by
/// its revision, starts from the first record.
pub proof fn changed_conditions_start_anew(
    c: RescoreConditions,
    finished: Option<RescoreConditions>,
    started: Option<RescoreConditions>,
    disk: DiskState,
    expected: int,
)
    requires
        single_lines(c),
        finished matches Some(o) ==> single_lines(o) && !same_conditions(c, o),
        started matches Some(o) ==> single_lines(o) && !same_conditions(c, o),
        disk.done == match finished {
            Some(o) => Some(marker_text(condition_texts(o))),
            None => None,
        },
        disk.in_progress == match started {
            Some(o) => Some(marker_text(condition_texts(o))),
            None => None,
        },
    ensures
        !is_complete(disk, expected, marker_text(condition_texts(c))),
        !is_resumable(disk, marker_text(condition_texts(c))),
{
    let text = marker_text(condition_texts(c));
    if disk.done == Some(text) {
        marker_text_tells_the_conditions(c, finished->Some_0);
    }
    if disk.in_progress == Some(text) {
        marker_text_tells_the_conditions(c, started->Some_0);
    }
}

/// The same conditions make the same marker, so that an unchanged run is taken up again. Of the
/// run's number that holds where the build is known.
pub proof fn same_conditions_make_the_same_marker(a: RescoreConditions, b: RescoreConditions)
    requires
        same_conditions(a, b),
    ensures
        condition_texts(a) == condition_texts(b),
        marker_text(condition_texts(a)) == marker_text(condition_texts(b)),
{
    assert(source_texts(a) =~= source_texts(b));
    assert(coeff_texts(a) =~= coeff_texts(b));
    assert(score_texts(a) =~= score_texts(b));
    assert(run_texts(a) =~= run_texts(b));
}

/// Every condition stands in the marker under its own key: no key comes twice.
pub proof fn every_key_comes_once(c: RescoreConditions, i: int, j: int)
    requires
        0 <= i < j < condition_texts(c).len(),
    ensures
        condition_texts(c)[i].0 != condition_texts(c)[j].0,
{
    reveal_strlit("version");
    reveal_strlit("mode");
    reveal_strlit("tool_version");
    reveal_strlit("build_commit");
    reveal_strlit("input_path");
    reveal_strlit("input_size");
    reveal_strlit("input_mtime_ns");
    reveal_strlit("input_records");
    reveal_strlit("net_path");
    reveal_strlit("net_size");
    reveal_strlit("net_sha256");
    reveal_strlit("weights_source");
    reveal_strlit("arch");
    reveal_strlit("feature_set");
    reveal_strlit("bucket_mode");
    reveal_strlit("num_buckets");
    reveal_strlit("progress_coeff_path");
    reveal_strlit("progress_coeff_sha256");
    reveal_strlit("score_scale_bits");
    reveal_strlit("score_scale");
    reveal_strlit("score_clip");
    reveal_strlit("batch_size");
    reveal_strlit("run_id");
    let (x, y) = (condition_texts(c)[i].0, condition_texts(c)[j].0);
    assert(x.len() != y.len() || x[0] != y[0] || x[1] != y[1] || x[x.len() - 1] != y[y.len() - 1]
        || x[x.len() - 2] != y[y.len() - 2] || x[6] != y[6]);
}

/// Only weights out of a checkpoint are the trained ones: the scores of all others are told to be
/// those of weights that were rounded before.
pub proof fn only_checkpoints_have_the_trained_weights(weights_source: Seq<char>)
    ensures
        label_kind(weights_source) == "fp32_master"@ <==> weights_source == "resume-ckpt"@,
        label_kind(weights_source) == "fp32_dequantised"@ <==> weights_source != "resume-ckpt"@,
{
    reveal_strlit("fp32_master");
    reveal_strlit("fp32_dequantised");
    assert("fp32_master"@.len() == 11 && "fp32_dequantised"@.len() == 16);
}

} // verus!

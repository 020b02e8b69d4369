use crate::json::{lemma_obj_get_none, obj_get, JVal};
use crate::parser::{
    aliases_spec, chunk_records, claims_spec, consumed_lines, key_aliases, key_claims,
    key_descriptions, key_id, key_labels, lang_value_spec, lemma_keys_distinct, next_chunk,
    opt_entry, pipe_finish, pipe_fold, pipeline_spec, project_spec, record_of, shard_model,
    skip_spec, Config, ShardModel,
};
use vstd::prelude::*;

verus! {

/// How many records all the shards hold together.
pub open spec fn total_records(ss: Seq<ShardModel>) -> nat
    decreases ss.len(),
{
    if ss.len() == 0 {
        0
    } else {
        total_records(ss.drop_last()) + ss.last().lines.len()
    }
}

/// How many lines the prefilter keeps.
pub open spec fn kept_count(lines: Seq<Seq<char>>, c: Config) -> nat
    decreases lines.len(),
{
    if lines.len() == 0 {
        0
    } else {
        kept_count(lines.drop_last(), c) + (if !skip_spec(lines.last(), c) {
            1nat
        } else {
            0nat
        })
    }
}

/// How many lines the prefilter keeps and the transformer turns into a
/// record.
pub open spec fn records_count(lines: Seq<Seq<char>>, c: Config) -> nat
    decreases lines.len(),
{
    if lines.len() == 0 {
        0
    } else {
        records_count(lines.drop_last(), c) + (if !skip_spec(lines.last(), c) && record_of(
            lines.last(),
            c,
        ) is Some {
            1nat
        } else {
            0nat
        })
    }
}

/// Along the fold, the records already sharded plus those of the chunk in
/// progress are exactly the records of the lines seen so far.
proof fn lemma_fold_records(lines: Seq<Seq<char>>, c: Config)
    ensures
        total_records(pipe_fold(lines, c).shards) + chunk_records(pipe_fold(lines, c).chunk, c).len()
            == records_count(lines, c),
    decreases lines.len(),
{
    if lines.len() > 0 {
        lemma_fold_records(lines.drop_last(), c);
        let st0 = pipe_fold(lines.drop_last(), c);
        let ch = next_chunk(st0.chunk, lines.last(), c);
        if !skip_spec(lines.last(), c) {
            assert(ch.drop_last() =~= st0.chunk);
        }
        if ch.len() == c.chunk_size {
            let st = pipe_fold(lines, c);
            assert(st.shards.drop_last() =~= st0.shards);
            assert(st.shards.last() == shard_model(st0.shards.len() as int, ch, c));
        }
    }
}

/// Law: the total number of projected records across all output shards is
/// exactly the number of consumed lines that pass the prefilter and yield
/// a record.
pub proof fn lemma_total_records(lines: Seq<Seq<char>>, c: Config)
    ensures
        total_records(pipeline_spec(lines, c)) == records_count(consumed_lines(lines, c), c),
{
    let cl = consumed_lines(lines, c);
    lemma_fold_records(cl, c);
    let st = pipe_fold(cl, c);
    if st.chunk.len() > 0 {
        let fin = pipe_finish(st, c);
        assert(fin.drop_last() =~= st.shards);
        assert(fin.last() == shard_model(st.shards.len() as int, st.chunk, c));
    }
}

/// Kept lines that all yield records are counted alike.
proof fn lemma_records_eq_kept(lines: Seq<Seq<char>>, c: Config)
    requires
        forall|j: int|
            0 <= j < lines.len() ==> (!skip_spec(#[trigger] lines[j], c) ==> record_of(
                lines[j],
                c,
            ) is Some),
    ensures
        records_count(lines, c) == kept_count(lines, c),
    decreases lines.len(),
{
    if lines.len() > 0 {
        assert(forall|j: int|
            0 <= j < lines.len() - 1 ==> #[trigger] lines.drop_last()[j] == lines[j]);
        lemma_records_eq_kept(lines.drop_last(), c);
    }
}

/// Law: on well-formed input, where every kept line yields a record, the
/// total number of records across all shards equals the number of
/// non-bracket lines that pass the prefilter, among the consumed lines.
pub proof fn lemma_total_records_well_formed(lines: Seq<Seq<char>>, c: Config)
    requires
        forall|j: int|
            0 <= j < consumed_lines(lines, c).len() ==> (!skip_spec(
                #[trigger] consumed_lines(lines, c)[j],
                c,
            ) ==> record_of(consumed_lines(lines, c)[j], c) is Some),
    ensures
        total_records(pipeline_spec(lines, c)) == kept_count(consumed_lines(lines, c), c),
{
    lemma_total_records(lines, c);
    lemma_records_eq_kept(consumed_lines(lines, c), c);
}

/// Law: the shards of a run are a function of the input lines and the
/// settings alone, so two runs over the same input are identical, shard
/// for shard, whatever order the jobs finish in.
pub proof fn lemma_run_deterministic(
    lines: Seq<Seq<char>>,
    c: Config,
    s1: Seq<ShardModel>,
    s2: Seq<ShardModel>,
)
    requires
        s1 == pipeline_spec(lines, c),
        s2 == pipeline_spec(lines, c),
    ensures
        s1 == s2,
{
}

/// Along the fold, full chunks have been sharded and the remainder sits
/// in the chunk in progress.
proof fn lemma_fold_chunking(lines: Seq<Seq<char>>, c: Config)
    requires
        c.chunk_size > 0,
    ensures
        pipe_fold(lines, c).shards.len() == (kept_count(lines, c) as int) / (c.chunk_size as int),
        pipe_fold(lines, c).chunk.len() == (kept_count(lines, c) as int) % (c.chunk_size as int),
    decreases lines.len(),
{
    if lines.len() > 0 {
        lemma_fold_chunking(lines.drop_last(), c);
        let st0 = pipe_fold(lines.drop_last(), c);
        let k0 = kept_count(lines.drop_last(), c) as int;
        let k = kept_count(lines, c) as int;
        let cs = c.chunk_size as int;
        let ch = next_chunk(st0.chunk, lines.last(), c);
        if !skip_spec(lines.last(), c) {
            assert(k == k0 + 1);
            assert(ch.len() == k0 % cs + 1);
            if k0 % cs + 1 == cs {
                assert(k % cs == 0 && k / cs == k0 / cs + 1) by (nonlinear_arith)
                    requires
                        cs > 0,
                        k == k0 + 1,
                        k0 >= 0,
                        k0 % cs + 1 == cs,
                {
                }
            } else {
                assert(k % cs == k0 % cs + 1 && k / cs == k0 / cs) by (nonlinear_arith)
                    requires
                        cs > 0,
                        k == k0 + 1,
                        k0 >= 0,
                        k0 % cs + 1 < cs,
                {
                }
            }
        }
    }
}

/// Law: the number of shards of a run is the number of kept consumed
/// lines divided by the chunk size, rounded up; in particular no kept
/// line makes no shard, and a final partial chunk makes exactly one.
pub proof fn lemma_shard_count(lines: Seq<Seq<char>>, c: Config)
    requires
        c.chunk_size > 0,
    ensures
        pipeline_spec(lines, c).len() == (kept_count(consumed_lines(lines, c), c) as int
            + c.chunk_size - 1) / (c.chunk_size as int),
{
    let cl = consumed_lines(lines, c);
    lemma_fold_chunking(cl, c);
    let st = pipe_fold(cl, c);
    let k = kept_count(cl, c) as int;
    let cs = c.chunk_size as int;
    if k % cs > 0 {
        assert((k + cs - 1) / cs == k / cs + 1) by (nonlinear_arith)
            requires
                cs > 0,
                k >= 0,
                k % cs > 0,
        {
        }
    } else {
        assert((k + cs - 1) / cs == k / cs) by (nonlinear_arith)
            requires
                cs > 0,
                k >= 0,
                k % cs == 0,
        {
        }
    }
}

/// Law: a record whose target-language label is absent never emits a
/// `labels` key: its projection holds no entry under that key at all.
pub proof fn lemma_absent_label_emits_no_key(
    m: Seq<(Seq<char>, JVal)>,
    lang: Seq<char>,
    props: Seq<Seq<char>>,
    nm: Seq<(Seq<char>, JVal)>,
)
    requires
        lang_value_spec(m, lang, key_labels()) == Result::<Option<JVal>, ()>::Ok(
            Option::<JVal>::None,
        ),
        project_spec(m, lang, props) == Result::<Seq<(Seq<char>, JVal)>, ()>::Ok(nm),
    ensures
        obj_get(nm, key_labels()) is None,
{
    lemma_keys_distinct();
    let idv = obj_get(m, key_id())->0;
    let base = seq![(key_id(), idv)];
    let desc = lang_value_spec(m, lang, key_descriptions())->Ok_0;
    let al = aliases_spec(m, lang)->Ok_0;
    let cl = claims_spec(m, props)->Ok_0;
    let s2 = opt_entry(base, key_labels(), Option::None);
    let s3 = opt_entry(s2, key_descriptions(), desc);
    let s4 = opt_entry(s3, key_aliases(), al);
    let s5 = opt_entry(s4, key_claims(), cl);
    assert(nm == s5);
    assert(forall|j: int| 0 <= j < s5.len() ==> #[trigger] s5[j].0 != key_labels());
    lemma_obj_get_none(nm, key_labels());
}

} // verus!

use crate::json::{
    dup_val, entries_insert, lemma_model_arr, lemma_model_obj, lemma_obj_insert_none, model_arr,
    model_obj, obj_find, obj_get, obj_insert, JVal, JsonVal,
};
use crate::output::{shard_name, OutputJson, OutputManager};
use crate::ser::{ser_obj, write_entries};
use crate::text::{
    contains_str, contains_sub, split_commas, split_commas_exec, strip_separator, strip_spec,
    strs_view, to_upper, upper_seq,
};
use vstd::prelude::*;

verus! {

/// The run's immutable settings, shared unchanged by every job.
#[derive(Debug)]
pub struct Config {
    pub input_file: String,
    pub output_prefix: String,
    pub chunk_size: usize,
    pub properties: Vec<String>,
    pub lang: String,
    pub with_limiter: bool,
    pub limit: u64,
    pub lang_token: String,
}

impl Config {
    /// The settings are consistent: the prefilter token is the quoted
    /// language code, the limiter mirrors a positive limit, and chunks
    /// have room for at least one line.
    pub open spec fn wf(self) -> bool {
        &&& self.lang_token@ == seq!['"'] + self.lang@ + seq!['"']
        &&& self.with_limiter == (self.limit > 0)
        &&& self.chunk_size > 0
    }

    /// Builds the settings from plain values: the requested properties are
    /// the comma-separated pieces of `prop_str`, normalized to upper case.
    pub fn new(
        input_file: &str,
        output_prefix: &str,
        lang: &str,
        prop_str: &str,
        limit: u64,
    ) -> (c: Config)
        ensures
            c.wf(),
            c.input_file@ == input_file@,
            c.output_prefix@ == output_prefix@,
            c.lang@ == lang@,
            c.chunk_size == 100000,
            c.limit == limit,
            strs_view(c.properties@) == split_commas(prop_str@).map_values(
                |p: Seq<char>| upper_seq(p),
            ),
    {
        let pieces = split_commas_exec(prop_str);
        let mut properties: Vec<String> = Vec::new();
        let n = pieces.len();
        let mut i: usize = 0;
        while i < n
            invariant
                n == pieces@.len(),
                i <= n,
                strs_view(pieces@) == split_commas(prop_str@),
                properties@.len() == i,
                forall|j: int| 0 <= j < i ==> #[trigger] properties@[j]@ == upper_seq(
                    pieces@[j]@,
                ),
            decreases n - i,
        {
            properties.push(to_upper(pieces[i].as_str()));
            i += 1;
        }
        proof {
            assert(strs_view(properties@) =~= split_commas(prop_str@).map_values(
                |p: Seq<char>| upper_seq(p),
            ));
        }
        let mut lang_token = String::from_str("\"");
        lang_token.append(lang);
        lang_token.append("\"");
        proof {
            reveal_strlit("\"");
            assert(lang_token@ =~= seq!['"'] + lang@ + seq!['"']);
        }
        Config {
            input_file: String::from_str(input_file),
            output_prefix: String::from_str(output_prefix),
            chunk_size: 100000,
            properties,
            lang: String::from_str(lang),
            with_limiter: limit > 0,
            limit,
            lang_token,
        }
    }

    /// A field-for-field copy: every job holds the same settings.
    pub fn duplicate(&self) -> (c: Config)
        ensures
            c.input_file == self.input_file,
            c.output_prefix == self.output_prefix,
            c.chunk_size == self.chunk_size,
            c.properties@ == self.properties@,
            c.lang == self.lang,
            c.with_limiter == self.with_limiter,
            c.limit == self.limit,
            c.lang_token == self.lang_token,
            self.wf() ==> c.wf(),
    {
        let mut properties: Vec<String> = Vec::new();
        let n = self.properties.len();
        let mut i: usize = 0;
        while i < n
            invariant
                n == self.properties@.len(),
                i <= n,
                properties@.len() == i,
                forall|j: int| 0 <= j < i ==> properties@[j] == self.properties@[j],
            decreases n - i,
        {
            properties.push(self.properties[i].clone());
            i += 1;
        }
        proof {
            assert(properties@ =~= self.properties@);
        }
        Config {
            input_file: self.input_file.clone(),
            output_prefix: self.output_prefix.clone(),
            chunk_size: self.chunk_size,
            properties,
            lang: self.lang.clone(),
            with_limiter: self.with_limiter,
            limit: self.limit,
            lang_token: self.lang_token.clone(),
        }
    }
}

/// Whether a raw line is skipped before parsing: the structural bracket
/// lines, and any line that nowhere holds the quoted language code.
///
/// This is an approximate filter, not a semantic one: a line that carries
/// the quoted code anywhere (even inside a claim) still passes and is
/// parsed, possibly into a projection with nothing but its `id`.
pub open spec fn skip_spec(line: Seq<char>, c: Config) -> bool {
    ||| line == seq!['[']
    ||| line == seq![']']
    ||| !contains_sub(line, seq!['"'] + c.lang@ + seq!['"'])
}

/// The prefilter, applied to each raw line before any JSON parsing.
pub fn skip_parse(article: &str, config: &Config) -> (r: bool)
    requires
        config.wf(),
    ensures
        r == skip_spec(article@, *config),
{
    let n = article.unicode_len();
    if n == 1 {
        let c = article.get_char(0);
        if c == '[' {
            proof {
                assert(article@ =~= seq!['[']);
            }
            return true;
        }
        if c == ']' {
            proof {
                assert(article@ =~= seq![']']);
            }
            return true;
        }
    }
    proof {
        assert(article@ != seq!['[']);
        assert(article@ != seq![']']);
    }
    !contains_str(article, config.lang_token.as_str())
}

/// serde_json's value type, declared so that the parse wrappers can pass
/// one along; it stays opaque here.
#[verifier::external_type_specification]
#[verifier::external_body]
pub struct ExValue(serde_json::Value);

/// What a serde_json value holds, in the library's own form.
pub uninterp spec fn json_model(v: serde_json::Value) -> JVal;

/// What a piece of text parses to, when it is valid JSON.
pub uninterp spec fn parse_of(s: Seq<char>) -> Option<JVal>;

/// Relies on serde_json::from_str: whether and how a piece of text parses
/// depends on the text alone.
#[verifier::external_body]
fn parse_raw(s: &str) -> (r: Option<serde_json::Value>)
    ensures
        (r is Some) == (parse_of(s@) is Some),
        r matches Some(v) ==> parse_of(s@) == Some(json_model(v)),
{
    serde_json::from_str::<serde_json::Value>(s).ok()
}

/// Relies on serde_json::Value's variants and on Number::to_string:
/// rebuilds the parsed value in the library's own form, objects in key
/// order, numbers as their decimal text.
#[verifier::external_body]
fn decode_value(v: serde_json::Value) -> (r: JsonVal)
    ensures
        r@ == json_model(v),
{
    match v {
        serde_json::Value::Null => JsonVal::Null,
        serde_json::Value::Bool(b) => JsonVal::Bool(b),
        serde_json::Value::Number(n) => JsonVal::Num(n.to_string()),
        serde_json::Value::String(s) => JsonVal::Str(s),
        serde_json::Value::Array(a) => JsonVal::Arr(a.into_iter().map(decode_value).collect()),
        serde_json::Value::Object(m) => JsonVal::Obj(
            m.into_iter().map(|(k, w)| (k, decode_value(w))).collect(),
        ),
    }
}

/// Parses one piece of text into the library's JSON form.
pub fn parse_json(s: &str) -> (r: Option<JsonVal>)
    ensures
        match r {
            Some(v) => parse_of(s@) == Some(v@),
            None => parse_of(s@) is None,
        },
{
    match parse_raw(s) {
        Some(v) => Some(decode_value(v)),
        None => None,
    }
}

/// The key under which a record's identifier sits.
pub open spec fn key_id() -> Seq<char> {
    seq!['i', 'd']
}

/// The key of the per-language label map.
pub open spec fn key_labels() -> Seq<char> {
    seq!['l', 'a', 'b', 'e', 'l', 's']
}

/// The key of the per-language description map.
pub open spec fn key_descriptions() -> Seq<char> {
    seq!['d', 'e', 's', 'c', 'r', 'i', 'p', 't', 'i', 'o', 'n', 's']
}

/// The key of the per-language alias-list map.
pub open spec fn key_aliases() -> Seq<char> {
    seq!['a', 'l', 'i', 'a', 's', 'e', 's']
}

/// The key of the claims map.
pub open spec fn key_claims() -> Seq<char> {
    seq!['c', 'l', 'a', 'i', 'm', 's']
}

/// The key of a language entry's text.
pub open spec fn key_value() -> Seq<char> {
    seq!['v', 'a', 'l', 'u', 'e']
}

/// The key of a claim's main snak.
pub open spec fn key_mainsnak() -> Seq<char> {
    seq!['m', 'a', 'i', 'n', 's', 'n', 'a', 'k']
}

/// The key of a snak's data value.
pub open spec fn key_datavalue() -> Seq<char> {
    seq!['d', 'a', 't', 'a', 'v', 'a', 'l', 'u', 'e']
}

/// What `labels` or `descriptions` projects to under the target language:
/// nothing when the key or the language is absent, the language entry's
/// `value` when there is one, and a record error when the shape is wrong.
pub open spec fn lang_value_spec(m: Seq<(Seq<char>, JVal)>, lang: Seq<char>, key: Seq<char>) -> Result<
    Option<JVal>,
    (),
> {
    match obj_get(m, key) {
        Option::None => Result::Ok(Option::None),
        Option::Some(v) => match v {
            JVal::Obj(lm) => match obj_get(lm, lang) {
                Option::None => Result::Ok(Option::None),
                Option::Some(lv) => match lv {
                    JVal::Obj(vm) => Result::Ok(obj_get(vm, key_value())),
                    _ => Result::Err(()),
                },
            },
            _ => Result::Err(()),
        },
    }
}

/// The `value` fields of the language's alias entries, in their order;
/// an alias entry that is not an object is a record error.
pub open spec fn alias_values_spec(items: Seq<JVal>) -> Result<Seq<JVal>, ()>
    decreases items.len(),
{
    if items.len() == 0 {
        Result::Ok(Seq::empty())
    } else {
        match alias_values_spec(items.drop_last()) {
            Result::Err(e) => Result::Err(e),
            Result::Ok(pre) => match items.last() {
                JVal::Obj(im) => match obj_get(im, key_value()) {
                    Option::Some(v) => Result::Ok(pre.push(v)),
                    Option::None => Result::Ok(pre),
                },
                _ => Result::Err(()),
            },
        }
    }
}

/// What `aliases` projects to under the target language: the collected
/// `value` fields, emitted only when at least one is there.
pub open spec fn aliases_spec(m: Seq<(Seq<char>, JVal)>, lang: Seq<char>) -> Result<
    Option<JVal>,
    (),
> {
    match obj_get(m, key_aliases()) {
        Option::None => Result::Ok(Option::None),
        Option::Some(v) => match v {
            JVal::Obj(am) => match obj_get(am, lang) {
                Option::None => Result::Ok(Option::None),
                Option::Some(lv) => match lv {
                    JVal::Arr(items) => match alias_values_spec(items) {
                        Result::Err(e) => Result::Err(e),
                        Result::Ok(vs) => if vs.len() > 0 {
                            Result::Ok(Option::Some(JVal::Arr(vs)))
                        } else {
                            Result::Ok(Option::None)
                        },
                    },
                    _ => Result::Err(()),
                },
            },
            _ => Result::Err(()),
        },
    }
}

/// The entity identifier one claim refers to, if it is an entity-reference
/// claim: the `id` inside `mainsnak.datavalue.value`, when that value is an
/// object carrying one.  Claims of other datatypes yield nothing.  A claim,
/// main snak or data value that is not an object is a record error.
pub open spec fn claim_id_spec(item: JVal) -> Result<Option<JVal>, ()> {
    match item {
        JVal::Obj(cm) => match obj_get(cm, key_mainsnak()) {
            Option::None => Result::Ok(Option::None),
            Option::Some(ms) => match ms {
                JVal::Obj(mm) => match obj_get(mm, key_datavalue()) {
                    Option::None => Result::Ok(Option::None),
                    Option::Some(dv) => match dv {
                        JVal::Obj(dm) => match obj_get(dm, key_value()) {
                            Option::None => Result::Ok(Option::None),
                            Option::Some(v) => match v {
                                JVal::Obj(vm) => match obj_get(vm, key_id()) {
                                    Option::None => Result::Ok(Option::None),
                                    Option::Some(id) => Result::Ok(Option::Some(id)),
                                },
                                _ => Result::Ok(Option::None),
                            },
                        },
                        _ => Result::Err(()),
                    },
                },
                _ => Result::Err(()),
            },
        },
        _ => Result::Err(()),
    }
}

/// The entity identifiers of one property's claim array, in claim order.
pub open spec fn claim_ids_spec(items: Seq<JVal>) -> Result<Seq<JVal>, ()>
    decreases items.len(),
{
    if items.len() == 0 {
        Result::Ok(Seq::empty())
    } else {
        match claim_ids_spec(items.drop_last()) {
            Result::Err(e) => Result::Err(e),
            Result::Ok(pre) => match claim_id_spec(items.last()) {
                Result::Err(e) => Result::Err(e),
                Result::Ok(Option::None) => Result::Ok(pre),
                Result::Ok(Option::Some(id)) => Result::Ok(pre.push(id)),
            },
        }
    }
}

/// The projected claims entries: for each requested property in order, the
/// identifiers its claims refer to, kept only when there is at least one.
pub open spec fn claims_entries_spec(cm: Seq<(Seq<char>, JVal)>, props: Seq<Seq<char>>) -> Result<
    Seq<(Seq<char>, JVal)>,
    (),
>
    decreases props.len(),
{
    if props.len() == 0 {
        Result::Ok(Seq::empty())
    } else {
        match claims_entries_spec(cm, props.drop_last()) {
            Result::Err(e) => Result::Err(e),
            Result::Ok(pre) => match obj_get(cm, props.last()) {
                Option::None => Result::Ok(pre),
                Option::Some(cl) => match cl {
                    JVal::Arr(items) => match claim_ids_spec(items) {
                        Result::Err(e) => Result::Err(e),
                        Result::Ok(ids) => if ids.len() > 0 {
                            Result::Ok(obj_insert(pre, props.last(), JVal::Arr(ids)))
                        } else {
                            Result::Ok(pre)
                        },
                    },
                    _ => Result::Err(()),
                },
            },
        }
    }
}

/// What `claims` projects to: the projected claims entries, emitted only
/// when at least one property yielded identifiers.
pub open spec fn claims_spec(m: Seq<(Seq<char>, JVal)>, props: Seq<Seq<char>>) -> Result<
    Option<JVal>,
    (),
> {
    match obj_get(m, key_claims()) {
        Option::None => Result::Ok(Option::None),
        Option::Some(v) => match v {
            JVal::Obj(cm) => match claims_entries_spec(cm, props) {
                Result::Err(e) => Result::Err(e),
                Result::Ok(ces) => if ces.len() > 0 {
                    Result::Ok(Option::Some(JVal::Obj(ces)))
                } else {
                    Result::Ok(Option::None)
                },
            },
            _ => Result::Err(()),
        },
    }
}

/// Appends an optional projected field under its key.
pub open spec fn opt_entry(
    es: Seq<(Seq<char>, JVal)>,
    key: Seq<char>,
    o: Option<JVal>,
) -> Seq<(Seq<char>, JVal)> {
    match o {
        Option::None => es,
        Option::Some(v) => es.push((key, v)),
    }
}

/// The full projection of one parsed record: its `id` copied first, then
/// the optional `labels`, `descriptions`, `aliases` and `claims` fields in
/// that order.  A record without an `id`, or with a structurally wrong
/// field, is a record error.
pub open spec fn project_spec(
    m: Seq<(Seq<char>, JVal)>,
    lang: Seq<char>,
    props: Seq<Seq<char>>,
) -> Result<Seq<(Seq<char>, JVal)>, ()> {
    match obj_get(m, key_id()) {
        Option::None => Result::Err(()),
        Option::Some(idv) => match lang_value_spec(m, lang, key_labels()) {
            Result::Err(e) => Result::Err(e),
            Result::Ok(lab) => match lang_value_spec(m, lang, key_descriptions()) {
                Result::Err(e) => Result::Err(e),
                Result::Ok(desc) => match aliases_spec(m, lang) {
                    Result::Err(e) => Result::Err(e),
                    Result::Ok(al) => match claims_spec(m, props) {
                        Result::Err(e) => Result::Err(e),
                        Result::Ok(cl) => Result::Ok(
                            opt_entry(
                                opt_entry(
                                    opt_entry(
                                        opt_entry(
                                            seq![(key_id(), idv)],
                                            key_labels(),
                                            lab,
                                        ),
                                        key_descriptions(),
                                        desc,
                                    ),
                                    key_aliases(),
                                    al,
                                ),
                                key_claims(),
                                cl,
                            ),
                        ),
                    },
                },
            },
        },
    }
}

/// A record error in a prefix of the alias entries is a record error for
/// the whole list.
proof fn lemma_alias_err_prefix(items: Seq<JVal>, t: int)
    requires
        0 <= t <= items.len(),
        alias_values_spec(items.take(t)) is Err,
    ensures
        alias_values_spec(items) is Err,
    decreases items.len(),
{
    if t < items.len() {
        assert(items.drop_last().take(t) =~= items.take(t));
        lemma_alias_err_prefix(items.drop_last(), t);
    } else {
        assert(items.take(t) =~= items);
    }
}

/// A record error in a prefix of a claim array is a record error for the
/// whole array.
proof fn lemma_claim_ids_err_prefix(items: Seq<JVal>, t: int)
    requires
        0 <= t <= items.len(),
        claim_ids_spec(items.take(t)) is Err,
    ensures
        claim_ids_spec(items) is Err,
    decreases items.len(),
{
    if t < items.len() {
        assert(items.drop_last().take(t) =~= items.take(t));
        lemma_claim_ids_err_prefix(items.drop_last(), t);
    } else {
        assert(items.take(t) =~= items);
    }
}

/// A record error under a prefix of the requested properties is a record
/// error for the whole request.
proof fn lemma_claims_entries_err_prefix(cm: Seq<(Seq<char>, JVal)>, props: Seq<Seq<char>>, t: int)
    requires
        0 <= t <= props.len(),
        claims_entries_spec(cm, props.take(t)) is Err,
    ensures
        claims_entries_spec(cm, props) is Err,
    decreases props.len(),
{
    if t < props.len() {
        assert(props.drop_last().take(t) =~= props.take(t));
        lemma_claims_entries_err_prefix(cm, props.drop_last(), t);
    } else {
        assert(props.take(t) =~= props);
    }
}

/// One record in the middle of its projection: the parsed source object's
/// entries, and the projected entries built so far.
#[derive(Debug)]
pub struct Document {
    pub original_map: Vec<(String, JsonVal)>,
    pub new_map: Vec<(String, JsonVal)>,
}

impl Document {
    /// The model of the source object's entries.
    pub open spec fn orig(self) -> Seq<(Seq<char>, JVal)> {
        model_obj(self.original_map@)
    }

    /// The model of the projected entries.
    pub open spec fn proj(self) -> Seq<(Seq<char>, JVal)> {
        model_obj(self.new_map@)
    }

    /// The serialized projected record.
    pub fn to_json_string(&self) -> (r: String)
        ensures
            r@ == ser_obj(self.proj()),
    {
        let mut out = String::new();
        write_entries(&mut out, &self.new_map);
        out
    }

    /// Copies the record's `id` into the projection; a record without one
    /// is a record error and the projection is left untouched.
    pub fn copy_id(&mut self) -> (ok: bool)
        ensures
            final(self).original_map == old(self).original_map,
            match obj_get(old(self).orig(), key_id()) {
                Option::None => !ok && final(self).new_map == old(self).new_map,
                Option::Some(v) => ok && final(self).proj() == obj_insert(
                    old(self).proj(),
                    key_id(),
                    v,
                ),
            },
    {
        proof {
            reveal_strlit("id");
            assert("id"@ =~= key_id());
        }
        let found = obj_find(&self.original_map, "id");
        match found {
            None => false,
            Some(i) => {
                let v = dup_val(&self.original_map[i].1);
                entries_insert(&mut self.new_map, String::from_str("id"), v);
                true
            },
        }
    }

    /// Projects one single-valued per-language field (`labels` or
    /// `descriptions`): the target language's `value`, under the same key.
    fn copy_lang_value(&mut self, config: &Config, key: &str) -> (ok: bool)
        ensures
            final(self).original_map == old(self).original_map,
            match lang_value_spec(old(self).orig(), config.lang@, key@) {
                Result::Err(_) => !ok && final(self).new_map == old(self).new_map,
                Result::Ok(o) => ok && match o {
                    Option::None => final(self).new_map == old(self).new_map,
                    Option::Some(v) => final(self).proj() == obj_insert(
                        old(self).proj(),
                        key@,
                        v,
                    ),
                },
            },
    {
        proof {
            reveal_strlit("value");
            assert("value"@ =~= key_value());
        }
        let found = obj_find(&self.original_map, key);
        match found {
            None => true,
            Some(i) => {
                match &self.original_map[i].1 {
                    JsonVal::Obj(lm) => {
                        let f2 = obj_find(lm, config.lang.as_str());
                        match f2 {
                            None => true,
                            Some(j) => {
                                match &lm[j].1 {
                                    JsonVal::Obj(vm) => {
                                        let f3 = obj_find(vm, "value");
                                        match f3 {
                                            None => true,
                                            Some(k) => {
                                                let v = dup_val(&vm[k].1);
                                                entries_insert(
                                                    &mut self.new_map,
                                                    String::from_str(key),
                                                    v,
                                                );
                                                true
                                            },
                                        }
                                    },
                                    _ => false,
                                }
                            },
                        }
                    },
                    _ => false,
                }
            },
        }
    }

    /// Projects the target language's aliases: every alias entry's `value`,
    /// in order, emitted only when at least one is there.
    #[verifier::loop_isolation(false)]
    pub fn copy_aliases(&mut self, config: &Config) -> (ok: bool)
        ensures
            final(self).original_map == old(self).original_map,
            match aliases_spec(old(self).orig(), config.lang@) {
                Result::Err(_) => !ok && final(self).new_map == old(self).new_map,
                Result::Ok(o) => ok && match o {
                    Option::None => final(self).new_map == old(self).new_map,
                    Option::Some(v) => final(self).proj() == obj_insert(
                        old(self).proj(),
                        key_aliases(),
                        v,
                    ),
                },
            },
    {
        proof {
            reveal_strlit("aliases");
            assert("aliases"@ =~= key_aliases());
            reveal_strlit("value");
            assert("value"@ =~= key_value());
        }
        let found = obj_find(&self.original_map, "aliases");
        match found {
            None => true,
            Some(i) => {
                match &self.original_map[i].1 {
                    JsonVal::Obj(am) => {
                        let f2 = obj_find(am, config.lang.as_str());
                        match f2 {
                            None => true,
                            Some(j) => {
                                match &am[j].1 {
                                    JsonVal::Arr(items) => {
                                        let ghost mitems = model_arr(items@);
                                        proof {
                                            lemma_model_arr(items@);
                                        }
                                        let mut values: Vec<JsonVal> = Vec::new();
                                        let n = items.len();
                                        let mut t: usize = 0;
                                        while t < n
                                            invariant
                                                n == items@.len(),
                                                t <= n,
                                                mitems == model_arr(items@),
                                                mitems.len() == n,
                                                forall|k: int| 0 <= k < n ==> #[trigger] mitems[k]
                                                    == items@[k]@,
                                                alias_values_spec(mitems.take(t as int))
                                                    == Result::<_, ()>::Ok(model_arr(values@)),
                                            decreases n - t,
                                        {
                                            let ghost vpre = model_arr(values@);
                                            proof {
                                                lemma_model_arr(values@);
                                            }
                                            match &items[t] {
                                                JsonVal::Obj(im) => {
                                                    let f3 = obj_find(im, "value");
                                                    proof {
                                                        assert(items@[t as int]@ == JVal::Obj(
                                                            model_obj(im@),
                                                        ));
                                                        assert(mitems.take(t + 1).drop_last()
                                                            =~= mitems.take(t as int));
                                                        assert(mitems.take(t + 1).last()
                                                            == items@[t as int]@);
                                                    }
                                                    if let Some(k) = f3 {
                                                        values.push(dup_val(&im[k].1));
                                                        proof {
                                                            lemma_model_arr(values@);
                                                            assert(model_arr(values@) =~= vpre.push(
                                                                im@[k as int].1@,
                                                            ));
                                                            let es1 = mitems.take(t + 1);
                                                            assert(es1.len() == t + 1);
                                                            assert(es1.drop_last() == mitems.take(
                                                                t as int,
                                                            ));
                                                            assert(alias_values_spec(es1.drop_last())
                                                                == Result::<_, ()>::Ok(vpre));
                                                            assert(es1.last() == JVal::Obj(
                                                                model_obj(im@),
                                                            ));
                                                            assert(obj_get(
                                                                model_obj(im@),
                                                                key_value(),
                                                            ) == Some(im@[k as int].1@));
                                                            assert(alias_values_spec(es1)
                                                                == Result::<_, ()>::Ok(vpre.push(
                                                                im@[k as int].1@,
                                                            )));
                                                            assert(alias_values_spec(
                                                                mitems.take(t + 1),
                                                            ) == Result::<_, ()>::Ok(model_arr(
                                                                values@,
                                                            )));
                                                        }
                                                    } else {
                                                        proof {
                                                            let es1 = mitems.take(t + 1);
                                                            assert(es1.len() == t + 1);
                                                            assert(es1.drop_last() == mitems.take(
                                                                t as int,
                                                            ));
                                                            assert(alias_values_spec(es1.drop_last())
                                                                == Result::<_, ()>::Ok(vpre));
                                                            assert(es1.last() == JVal::Obj(
                                                                model_obj(im@),
                                                            ));
                                                            assert(obj_get(
                                                                model_obj(im@),
                                                                key_value(),
                                                            ) is None);
                                                            assert(alias_values_spec(es1)
                                                                == Result::<_, ()>::Ok(vpre));
                                                            assert(alias_values_spec(
                                                                mitems.take(t + 1),
                                                            ) == Result::<_, ()>::Ok(model_arr(
                                                                values@,
                                                            )));
                                                        }
                                                    }
                                                },
                                                _ => {
                                                    proof {
                                                        assert(!(items@[t as int]@ is Obj));
                                                        assert(mitems.take(t + 1).drop_last()
                                                            =~= mitems.take(t as int));
                                                        assert(mitems.take(t + 1).last()
                                                            == items@[t as int]@);
                                                        assert(alias_values_spec(
                                                            mitems.take(t + 1),
                                                        ) is Err);
                                                        lemma_alias_err_prefix(mitems, t + 1);
                                                        assert(self.original_map@[i as int].1@
                                                            == JVal::Obj(model_obj(am@)));
                                                        assert(am@[j as int].1@ == JVal::Arr(
                                                            model_arr(items@),
                                                        ));
                                                        assert(aliases_spec(
                                                            old(self).orig(),
                                                            config.lang@,
                                                        ) is Err);
                                                    }
                                                    return false;
                                                },
                                            }
                                            t += 1;
                                            proof {
                                                assert(mitems.take(t as int).drop_last()
                                                    =~= mitems.take(t - 1));
                                                assert(mitems.take(t as int).last()
                                                    == items@[t - 1]@);
                                                assert(alias_values_spec(mitems.take(t as int))
                                                    == Result::<_, ()>::Ok(model_arr(values@)));
                                            }
                                        }
                                        proof {
                                            assert(mitems.take(n as int) =~= mitems);
                                        }
                                        if values.len() > 0 {
                                            entries_insert(
                                                &mut self.new_map,
                                                String::from_str("aliases"),
                                                JsonVal::Arr(values),
                                            );
                                        }
                                        true
                                    },
                                    _ => false,
                                }
                            },
                        }
                    },
                    _ => false,
                }
            },
        }
    }

    /// Collects the entity identifier of one claim into `clone_ids`, when
    /// the claim is an entity reference; other datatypes add nothing.
    fn copy_clone_ids(&self, item: &JsonVal, clone_ids: &mut Vec<JsonVal>) -> (ok: bool)
        ensures
            match claim_id_spec(item@) {
                Result::Err(_) => !ok && final(clone_ids)@ == old(clone_ids)@,
                Result::Ok(o) => ok && match o {
                    Option::None => final(clone_ids)@ == old(clone_ids)@,
                    Option::Some(id) => model_arr(final(clone_ids)@) == model_arr(
                        old(clone_ids)@,
                    ).push(id),
                },
            },
    {
        proof {
            reveal_strlit("mainsnak");
            assert("mainsnak"@ =~= key_mainsnak());
            reveal_strlit("datavalue");
            assert("datavalue"@ =~= key_datavalue());
            reveal_strlit("value");
            assert("value"@ =~= key_value());
            reveal_strlit("id");
            assert("id"@ =~= key_id());
        }
        match item {
            JsonVal::Obj(cm) => {
                let f1 = obj_find(cm, "mainsnak");
                match f1 {
                    None => true,
                    Some(a) => match &cm[a].1 {
                        JsonVal::Obj(mm) => {
                            let f2 = obj_find(mm, "datavalue");
                            match f2 {
                                None => true,
                                Some(b) => match &mm[b].1 {
                                    JsonVal::Obj(dm) => {
                                        let f3 = obj_find(dm, "value");
                                        match f3 {
                                            None => true,
                                            Some(c) => match &dm[c].1 {
                                                JsonVal::Obj(vm) => {
                                                    let f4 = obj_find(vm, "id");
                                                    match f4 {
                                                        None => true,
                                                        Some(d) => {
                                                            let ghost vpre = model_arr(
                                                                old(clone_ids)@,
                                                            );
                                                            proof {
                                                                lemma_model_arr(clone_ids@);
                                                            }
                                                            clone_ids.push(dup_val(&vm[d].1));
                                                            proof {
                                                                lemma_model_arr(clone_ids@);
                                                                assert(model_arr(clone_ids@)
                                                                    =~= vpre.push(
                                                                    vm@[d as int].1@,
                                                                ));
                                                            }
                                                            true
                                                        },
                                                    }
                                                },
                                                _ => true,
                                            },
                                        }
                                    },
                                    _ => false,
                                },
                            }
                        },
                        _ => false,
                    },
                }
            },
            _ => false,
        }
    }

    /// Projects the requested properties' claims: for each property in
    /// request order, the entity identifiers its claims refer to, a
    /// property kept only when it yielded at least one, the whole field
    /// kept only when some property did.
    #[verifier::loop_isolation(false)]
    pub fn copy_claims(&mut self, config: &Config) -> (ok: bool)
        ensures
            final(self).original_map == old(self).original_map,
            match claims_spec(old(self).orig(), strs_view(config.properties@)) {
                Result::Err(_) => !ok && final(self).new_map == old(self).new_map,
                Result::Ok(o) => ok && match o {
                    Option::None => final(self).new_map == old(self).new_map,
                    Option::Some(v) => final(self).proj() == obj_insert(
                        old(self).proj(),
                        key_claims(),
                        v,
                    ),
                },
            },
    {
        proof {
            reveal_strlit("claims");
            assert("claims"@ =~= key_claims());
        }
        let found = obj_find(&self.original_map, "claims");
        match found {
            None => true,
            Some(i) => {
                match &self.original_map[i].1 {
                    JsonVal::Obj(cm) => {
                        let ghost mprops = strs_view(config.properties@);
                        let ghost cmm = model_obj(cm@);
                        let mut copied: Vec<(String, JsonVal)> = Vec::new();
                        let np = config.properties.len();
                        let mut p: usize = 0;
                        proof {
                            assert(mprops.take(0int) =~= Seq::<Seq<char>>::empty());
                            assert(copied@ =~= Seq::<(String, JsonVal)>::empty());
                        }
                        while p < np
                            invariant
                                p <= np,
                                claims_entries_spec(cmm, mprops.take(p as int)) == Result::<
                                    _,
                                    (),
                                >::Ok(model_obj(copied@)),
                            decreases np - p,
                        {
                            let ghost cpre = model_obj(copied@);
                            let prop = &config.properties[p];
                            let fp = obj_find(cm, prop.as_str());
                            proof {
                                assert(mprops.take(p + 1).drop_last() =~= mprops.take(p as int));
                                assert(mprops.take(p + 1).last() == prop@);
                            }
                            match fp {
                                None => {
                                    proof {
                                        assert(claims_entries_spec(cmm, mprops.take(p + 1))
                                            == Result::<_, ()>::Ok(cpre));
                                    }
                                },
                                Some(q) => {
                                    match &cm[q].1 {
                                        JsonVal::Arr(items) => {
                                            let ghost mitems = model_arr(items@);
                                            proof {
                                                lemma_model_arr(items@);
                                            }
                                            let mut clone_ids: Vec<JsonVal> = Vec::new();
                                            let nt = items.len();
                                            let mut t: usize = 0;
                                            proof {
                                                assert(mitems.take(0int) =~= Seq::<JVal>::empty());
                                                assert(clone_ids@ =~= Seq::<JsonVal>::empty());
                                                assert(model_arr(clone_ids@) =~= Seq::<
                                                    JVal,
                                                >::empty());
                                            }
                                            while t < nt
                                                invariant
                                                    t <= nt,
                                                    claim_ids_spec(mitems.take(t as int))
                                                        == Result::<_, ()>::Ok(model_arr(
                                                        clone_ids@,
                                                    )),
                                                decreases nt - t,
                                            {
                                                proof {
                                                    assert(mitems.take(t + 1).drop_last()
                                                        =~= mitems.take(t as int));
                                                    assert(mitems.take(t + 1).last()
                                                        == items@[t as int]@);
                                                }
                                                let okc = self.copy_clone_ids(
                                                    &items[t],
                                                    &mut clone_ids,
                                                );
                                                if !okc {
                                                    proof {
                                                        assert(claim_ids_spec(
                                                            mitems.take(t + 1),
                                                        ) is Err);
                                                        lemma_claim_ids_err_prefix(mitems, t + 1);
                                                        assert(claims_entries_spec(
                                                            cmm,
                                                            mprops.take(p + 1),
                                                        ) is Err);
                                                        lemma_claims_entries_err_prefix(
                                                            cmm,
                                                            mprops,
                                                            p + 1,
                                                        );
                                                    }
                                                    return false;
                                                }
                                                t += 1;
                                            }
                                            proof {
                                                assert(mitems.take(nt as int) =~= mitems);
                                            }
                                            if clone_ids.len() > 0 {
                                                proof {
                                                    lemma_model_arr(clone_ids@);
                                                }
                                                entries_insert(
                                                    &mut copied,
                                                    prop.clone(),
                                                    JsonVal::Arr(clone_ids),
                                                );
                                                proof {
                                                    assert(claims_entries_spec(
                                                        cmm,
                                                        mprops.take(p + 1),
                                                    ) == Result::<_, ()>::Ok(model_obj(copied@)));
                                                }
                                            } else {
                                                proof {
                                                    assert(model_arr(clone_ids@).len() == 0);
                                                    assert(claims_entries_spec(
                                                        cmm,
                                                        mprops.take(p + 1),
                                                    ) == Result::<_, ()>::Ok(cpre));
                                                }
                                            }
                                        },
                                        _ => {
                                            proof {
                                                assert(!(cm@[q as int].1@ is Arr));
                                                assert(claims_entries_spec(
                                                    cmm,
                                                    mprops.take(p + 1),
                                                ) is Err);
                                                lemma_claims_entries_err_prefix(cmm, mprops, p + 1);
                                            }
                                            return false;
                                        },
                                    }
                                },
                            }
                            p += 1;
                        }
                        proof {
                            assert(mprops.take(np as int) =~= mprops);
                        }
                        if copied.len() > 0 {
                            proof {
                                lemma_model_obj(copied@);
                            }
                            entries_insert(
                                &mut self.new_map,
                                String::from_str("claims"),
                                JsonVal::Obj(copied),
                            );
                            true
                        } else {
                            proof {
                                assert(model_obj(copied@).len() == 0);
                            }
                            true
                        }
                    },
                    _ => false,
                }
            },
        }
    }

    /// Projects the target language's label.
    pub fn copy_labels(&mut self, config: &Config) -> (ok: bool)
        ensures
            final(self).original_map == old(self).original_map,
            match lang_value_spec(old(self).orig(), config.lang@, key_labels()) {
                Result::Err(_) => !ok && final(self).new_map == old(self).new_map,
                Result::Ok(o) => ok && match o {
                    Option::None => final(self).new_map == old(self).new_map,
                    Option::Some(v) => final(self).proj() == obj_insert(
                        old(self).proj(),
                        key_labels(),
                        v,
                    ),
                },
            },
    {
        proof {
            reveal_strlit("labels");
            assert("labels"@ =~= key_labels());
        }
        self.copy_lang_value(config, "labels")
    }

    /// Projects the target language's description.
    pub fn copy_desc(&mut self, config: &Config) -> (ok: bool)
        ensures
            final(self).original_map == old(self).original_map,
            match lang_value_spec(old(self).orig(), config.lang@, key_descriptions()) {
                Result::Err(_) => !ok && final(self).new_map == old(self).new_map,
                Result::Ok(o) => ok && match o {
                    Option::None => final(self).new_map == old(self).new_map,
                    Option::Some(v) => final(self).proj() == obj_insert(
                        old(self).proj(),
                        key_descriptions(),
                        v,
                    ),
                },
            },
    {
        proof {
            reveal_strlit("descriptions");
            assert("descriptions"@ =~= key_descriptions());
        }
        self.copy_lang_value(config, "descriptions")
    }
}

/// The keys of the five projected fields are pairwise distinct.
pub proof fn lemma_keys_distinct()
    ensures
        key_id() != key_labels(),
        key_id() != key_descriptions(),
        key_id() != key_aliases(),
        key_id() != key_claims(),
        key_labels() != key_descriptions(),
        key_labels() != key_aliases(),
        key_labels() != key_claims(),
        key_descriptions() != key_aliases(),
        key_descriptions() != key_claims(),
        key_aliases() != key_claims(),
{
    assert(key_labels()[0] != key_claims()[0]);
    assert(key_id().len() != key_labels().len());
    assert(key_id().len() != key_descriptions().len());
    assert(key_id().len() != key_aliases().len());
    assert(key_id().len() != key_claims().len());
    assert(key_labels().len() != key_descriptions().len());
    assert(key_labels().len() != key_aliases().len());
    assert(key_descriptions().len() != key_aliases().len());
    assert(key_descriptions().len() != key_claims().len());
    assert(key_aliases().len() != key_claims().len());
}

/// Projects one parsed record into a fresh, empty projection, copying the
/// fields in order: `id`, then `labels`, `descriptions`, `aliases` and
/// `claims`.  A record error leaves the caller free to drop the record.
pub fn process_doc(doc: &mut Document, config: &Config) -> (ok: bool)
    requires
        old(doc).new_map@.len() == 0,
    ensures
        final(doc).original_map == old(doc).original_map,
        match project_spec(old(doc).orig(), config.lang@, strs_view(config.properties@)) {
            Result::Err(_) => !ok,
            Result::Ok(nm) => ok && final(doc).proj() == nm,
        },
{
    let ghost m = old(doc).orig();
    let ghost lang = config.lang@;
    let ghost props = strs_view(config.properties@);
    proof {
        lemma_keys_distinct();
        lemma_model_obj(old(doc).new_map@);
        assert(model_obj(old(doc).new_map@) =~= Seq::<(Seq<char>, JVal)>::empty());
    }
    if !doc.copy_id() {
        return false;
    }
    let ghost idv = obj_get(m, key_id())->0;
    let ghost s1 = doc.proj();
    proof {
        assert(s1 =~= seq![(key_id(), idv)]);
    }
    if !doc.copy_labels(config) {
        return false;
    }
    let ghost lab = lang_value_spec(m, lang, key_labels())->Ok_0;
    let ghost s2 = doc.proj();
    proof {
        if lab is Some {
            assert(forall|j: int| 0 <= j < s1.len() ==> s1[j].0 != key_labels());
            lemma_obj_insert_none(s1, key_labels(), lab->0);
        }
        assert(s2 == opt_entry(s1, key_labels(), lab));
        assert(forall|j: int|
            0 <= j < s2.len() ==> (#[trigger] s2[j].0 == key_id() || s2[j].0 == key_labels()));
    }
    if !doc.copy_desc(config) {
        return false;
    }
    let ghost desc = lang_value_spec(m, lang, key_descriptions())->Ok_0;
    let ghost s3 = doc.proj();
    proof {
        if desc is Some {
            assert(forall|j: int| 0 <= j < s2.len() ==> s2[j].0 != key_descriptions());
            lemma_obj_insert_none(s2, key_descriptions(), desc->0);
        }
        assert(s3 == opt_entry(s2, key_descriptions(), desc));
        assert(forall|j: int|
            0 <= j < s3.len() ==> (#[trigger] s3[j].0 == key_id() || s3[j].0 == key_labels()
                || s3[j].0 == key_descriptions()));
    }
    if !doc.copy_aliases(config) {
        return false;
    }
    let ghost al = aliases_spec(m, lang)->Ok_0;
    let ghost s4 = doc.proj();
    proof {
        if al is Some {
            assert(forall|j: int| 0 <= j < s3.len() ==> s3[j].0 != key_aliases());
            lemma_obj_insert_none(s3, key_aliases(), al->0);
        }
        assert(s4 == opt_entry(s3, key_aliases(), al));
        assert(forall|j: int|
            0 <= j < s4.len() ==> (#[trigger] s4[j].0 == key_id() || s4[j].0 == key_labels()
                || s4[j].0 == key_descriptions() || s4[j].0 == key_aliases()));
    }
    if !doc.copy_claims(config) {
        return false;
    }
    let ghost cl = claims_spec(m, props)->Ok_0;
    let ghost s5 = doc.proj();
    proof {
        if cl is Some {
            assert(forall|j: int| 0 <= j < s4.len() ==> s4[j].0 != key_claims());
            lemma_obj_insert_none(s4, key_claims(), cl->0);
        }
        assert(s5 == opt_entry(s4, key_claims(), cl));
        assert(project_spec(m, lang, props) == Result::<_, ()>::Ok(s5));
    }
    true
}

/// The serialized projection of one raw line: the line with its separator
/// stripped must parse to an object that projects without a record error.
pub open spec fn record_of(line: Seq<char>, c: Config) -> Option<Seq<char>> {
    match parse_of(strip_spec(line)) {
        Option::Some(v) => match v {
            JVal::Obj(m) => match project_spec(m, c.lang@, strs_view(c.properties@)) {
                Result::Ok(nm) => Option::Some(ser_obj(nm)),
                Result::Err(_) => Option::None,
            },
            _ => Option::None,
        },
        Option::None => Option::None,
    }
}

/// The serialized records of a chunk's lines, in line order.
pub open spec fn chunk_records(lines: Seq<Seq<char>>, c: Config) -> Seq<Seq<char>>
    decreases lines.len(),
{
    if lines.len() == 0 {
        Seq::empty()
    } else {
        chunk_records(lines.drop_last(), c) + (match record_of(lines.last(), c) {
            Option::Some(r) => seq![r],
            Option::None => Seq::<Seq<char>>::empty(),
        })
    }
}

/// How many of a chunk's lines fail to yield a record.
pub open spec fn chunk_errs(lines: Seq<Seq<char>>, c: Config) -> nat
    decreases lines.len(),
{
    if lines.len() == 0 {
        0
    } else {
        chunk_errs(lines.drop_last(), c) + (if record_of(lines.last(), c) is None {
            1nat
        } else {
            0nat
        })
    }
}

/// Transforms every line of one chunk: strips the trailing separator,
/// parses, projects, and appends each serialized record to the shard's
/// buffer in line order.  A line that fails to parse into an object, or
/// whose record is structurally wrong, is counted and dropped: one bad
/// record does not abort its chunk.
#[verifier::loop_isolation(false)]
pub fn process_buffer(buffer: Vec<String>, config: &Config, output: &mut OutputJson) -> (errs: u64)
    ensures
        final(output).file_name == old(output).file_name,
        strs_view(final(output).buffer@) == strs_view(old(output).buffer@) + chunk_records(
            strs_view(buffer@),
            *config,
        ),
        errs == chunk_errs(strs_view(buffer@), *config),
{
    let ghost mlines = strs_view(buffer@);
    let n = buffer.len();
    let mut errs: u64 = 0;
    let mut i: usize = 0;
    proof {
        assert(mlines.take(0int) =~= Seq::<Seq<char>>::empty());
        assert(strs_view(output.buffer@) =~= strs_view(old(output).buffer@) + chunk_records(
            mlines.take(0int),
            *config,
        ));
    }
    while i < n
        invariant
            i <= n,
            errs <= i,
            output.file_name == old(output).file_name,
            strs_view(output.buffer@) == strs_view(old(output).buffer@) + chunk_records(
                mlines.take(i as int),
                *config,
            ),
            errs == chunk_errs(mlines.take(i as int), *config),
        decreases n - i,
    {
        proof {
            assert(mlines.take(i + 1).drop_last() =~= mlines.take(i as int));
            assert(mlines.take(i + 1).last() == buffer@[i as int]@);
        }
        let article = strip_separator(buffer[i].as_str());
        let parsed = parse_json(article);
        match parsed {
            Some(v) => {
                match v {
                    JsonVal::Obj(om) => {
                        let ghost mv = JVal::Obj(model_obj(om@));
                        let mut doc = Document { original_map: om, new_map: Vec::new() };
                        let ok = process_doc(&mut doc, config);
                        if ok {
                            let line_out = doc.to_json_string();
                            let ghost before = strs_view(output.buffer@);
                            output.output(line_out);
                            proof {
                                assert(record_of(buffer@[i as int]@, *config) matches Some(r)
                                    && r == ser_obj(doc.proj()));
                                assert(strs_view(output.buffer@) =~= before.push(ser_obj(
                                    doc.proj(),
                                )));
                                assert(chunk_records(mlines.take(i + 1), *config)
                                    =~= chunk_records(mlines.take(i as int), *config) + seq![
                                    ser_obj(doc.proj()),
                                ]);
                                assert(strs_view(output.buffer@) =~= strs_view(old(output).buffer@)
                                    + chunk_records(mlines.take(i + 1), *config));
                            }
                        } else {
                            errs += 1;
                            proof {
                                assert(record_of(buffer@[i as int]@, *config) is None);
                            }
                        }
                    },
                    _ => {
                        proof {
                            assert(!(v@ is Obj));
                            assert(record_of(buffer@[i as int]@, *config) is None);
                        }
                        errs += 1;
                    },
                }
            },
            None => {
                proof {
                    assert(record_of(buffer@[i as int]@, *config) is None);
                }
                errs += 1;
            },
        }
        i += 1;
        proof {
            assert(strs_view(output.buffer@) =~= strs_view(old(output).buffer@) + chunk_records(
                mlines.take(i as int),
                *config,
            ));
        }
    }
    proof {
        assert(mlines.take(n as int) =~= mlines);
    }
    errs
}

/// One dispatched shard, as the specification sees it: its file name and
/// its transformed lines.
#[verifier::ext_equal]
pub struct ShardModel {
    pub name: Seq<char>,
    pub lines: Seq<Seq<char>>,
}

/// The reader's state, as the specification sees it: the chunk being
/// filled and the shards dispatched so far.
#[verifier::ext_equal]
pub struct PipeModel {
    pub chunk: Seq<Seq<char>>,
    pub shards: Seq<ShardModel>,
}

/// The chunk after one line: unchanged when the prefilter skips the line,
/// else with the line appended.
pub open spec fn next_chunk(chunk: Seq<Seq<char>>, line: Seq<char>, c: Config) -> Seq<Seq<char>> {
    if skip_spec(line, c) {
        chunk
    } else {
        chunk.push(line)
    }
}

/// The shard dispatched for one chunk, under the given index.
pub open spec fn shard_model(i: int, chunk: Seq<Seq<char>>, c: Config) -> ShardModel {
    ShardModel { name: shard_name(c.output_prefix@, i), lines: chunk_records(chunk, c) }
}

/// One reader step: accept a line, and dispatch the chunk when it fills.
pub open spec fn pipe_step(st: PipeModel, line: Seq<char>, c: Config) -> PipeModel {
    let ch = next_chunk(st.chunk, line, c);
    if ch.len() == c.chunk_size {
        PipeModel {
            chunk: Seq::empty(),
            shards: st.shards.push(shard_model(st.shards.len() as int, ch, c)),
        }
    } else {
        PipeModel { chunk: ch, shards: st.shards }
    }
}

/// The reader's state after consuming the given lines in order.
pub open spec fn pipe_fold(lines: Seq<Seq<char>>, c: Config) -> PipeModel
    decreases lines.len(),
{
    if lines.len() == 0 {
        PipeModel { chunk: Seq::empty(), shards: Seq::empty() }
    } else {
        pipe_step(pipe_fold(lines.drop_last(), c), lines.last(), c)
    }
}

/// The lines the reader consumes: all of them, or only the first `limit`
/// when the limiter is on.
pub open spec fn consumed_lines(lines: Seq<Seq<char>>, c: Config) -> Seq<Seq<char>> {
    if c.with_limiter && lines.len() > c.limit {
        lines.take(c.limit as int)
    } else {
        lines
    }
}

/// At end of stream a non-empty partial chunk is dispatched as one last,
/// possibly undersized shard; an empty one makes no extra shard.
pub open spec fn pipe_finish(st: PipeModel, c: Config) -> Seq<ShardModel> {
    if st.chunk.len() > 0 {
        st.shards.push(shard_model(st.shards.len() as int, st.chunk, c))
    } else {
        st.shards
    }
}

/// Every shard of one whole run: a function of the input lines and the
/// settings alone, so two runs over the same input produce the same
/// shards, whatever order the jobs happen to finish in.
pub open spec fn pipeline_spec(lines: Seq<Seq<char>>, c: Config) -> Seq<ShardModel> {
    pipe_finish(pipe_fold(consumed_lines(lines, c), c), c)
}

/// The models of a sequence of shards.
pub open spec fn shards_view(ss: Seq<OutputJson>) -> Seq<ShardModel> {
    ss.map_values(
        |s: OutputJson| ShardModel { name: s.file_name@, lines: strs_view(s.buffer@) },
    )
}

/// The reader and dispatcher state: the settings, the shard allocator, the
/// chunk being filled, and how many raw lines were consumed.
pub struct Pipeline {
    pub config: Config,
    pub manager: OutputManager,
    pub buffer: Vec<String>,
    pub count: u64,
}

impl Pipeline {
    /// The dispatcher is consistent: the settings are, the allocator
    /// writes under the configured prefix, and the chunk is never left
    /// full between lines.
    pub open spec fn wf(self) -> bool {
        &&& self.config.wf()
        &&& self.manager.wf()
        &&& self.manager.path_prefix@ == self.config.output_prefix@
        &&& self.buffer@.len() < self.config.chunk_size
    }

    /// Whether the record limit has been reached.
    pub open spec fn limit_reached(self) -> bool {
        self.config.with_limiter && self.count >= self.config.limit
    }

    pub fn new(config: Config) -> (p: Pipeline)
        requires
            config.wf(),
        ensures
            p.wf(),
            p.config == config,
            p.count == 0,
            p.buffer@ == Seq::<String>::empty(),
            p.manager.file_counter == 0,
    {
        let manager = OutputManager::new(config.output_prefix.as_str());
        Pipeline { config, manager, buffer: Vec::new(), count: 0 }
    }

    /// Whether the reader should consume one more line.
    pub fn wants_more(&self) -> (r: bool)
        ensures
            r == !self.limit_reached(),
    {
        !(self.config.with_limiter && self.count >= self.config.limit)
    }

    /// Accepts one raw line.  A skipped line only counts; a kept line joins
    /// the chunk, and a chunk that fills is detached and handed back with a
    /// freshly allocated shard as one job.
    pub fn push_line(&mut self, line: String) -> (job: Option<(Vec<String>, OutputJson)>)
        requires
            old(self).wf(),
            !old(self).limit_reached(),
            old(self).count < u64::MAX,
            old(self).manager.file_counter < i32::MAX,
        ensures
            final(self).wf(),
            final(self).config == old(self).config,
            final(self).count == old(self).count + 1,
            ({
                let ch = next_chunk(strs_view(old(self).buffer@), line@, old(self).config);
                match job {
                    Option::Some((chunk, shard)) => {
                        &&& ch.len() == old(self).config.chunk_size
                        &&& strs_view(chunk@) == ch
                        &&& shard.file_name@ == shard_name(
                            old(self).config.output_prefix@,
                            old(self).manager.file_counter as int,
                        )
                        &&& shard.buffer@ == Seq::<String>::empty()
                        &&& final(self).buffer@ == Seq::<String>::empty()
                        &&& final(self).manager.file_counter == old(self).manager.file_counter + 1
                    },
                    Option::None => {
                        &&& ch.len() != old(self).config.chunk_size
                        &&& strs_view(final(self).buffer@) == ch
                        &&& final(self).manager == old(self).manager
                    },
                }
            }),
    {
        self.count = self.count + 1;
        if skip_parse(line.as_str(), &self.config) {
            return None;
        }
        self.buffer.push(line);
        proof {
            assert(strs_view(self.buffer@) =~= next_chunk(
                strs_view(old(self).buffer@),
                line@,
                old(self).config,
            ));
        }
        if self.buffer.len() == self.config.chunk_size {
            let mut chunk: Vec<String> = Vec::new();
            core::mem::swap(&mut chunk, &mut self.buffer);
            let shard = self.manager.create_output_json();
            Some((chunk, shard))
        } else {
            None
        }
    }

    /// Hands back the final, possibly undersized job at end of stream,
    /// when the in-progress chunk is non-empty.
    pub fn finish(&mut self) -> (job: Option<(Vec<String>, OutputJson)>)
        requires
            old(self).wf(),
            old(self).manager.file_counter < i32::MAX,
        ensures
            final(self).wf(),
            final(self).config == old(self).config,
            final(self).count == old(self).count,
            final(self).buffer@ == Seq::<String>::empty(),
            match job {
                Option::Some((chunk, shard)) => {
                    &&& old(self).buffer@.len() > 0
                    &&& strs_view(chunk@) == strs_view(old(self).buffer@)
                    &&& shard.file_name@ == shard_name(
                        old(self).config.output_prefix@,
                        old(self).manager.file_counter as int,
                    )
                    &&& shard.buffer@ == Seq::<String>::empty()
                    &&& final(self).manager.file_counter == old(self).manager.file_counter + 1
                },
                Option::None => {
                    &&& old(self).buffer@.len() == 0
                    &&& final(self).manager == old(self).manager
                },
            },
    {
        if self.buffer.len() == 0 {
            return None;
        }
        let mut chunk: Vec<String> = Vec::new();
        core::mem::swap(&mut chunk, &mut self.buffer);
        let shard = self.manager.create_output_json();
        Some((chunk, shard))
    }
}

/// How many raw lines are kept by the prefilter yet fail to yield a
/// record.
pub open spec fn line_errs(lines: Seq<Seq<char>>, c: Config) -> nat
    decreases lines.len(),
{
    if lines.len() == 0 {
        0
    } else {
        line_errs(lines.drop_last(), c) + (if !skip_spec(lines.last(), c) && record_of(
            lines.last(),
            c,
        ) is None {
            1nat
        } else {
            0nat
        })
    }
}

/// A chunk has no more record errors than lines.
proof fn lemma_chunk_errs_le(lines: Seq<Seq<char>>, c: Config)
    ensures
        chunk_errs(lines, c) <= lines.len(),
    decreases lines.len(),
{
    if lines.len() > 0 {
        lemma_chunk_errs_le(lines.drop_last(), c);
    }
}

/// A run has no more record errors than raw lines.
proof fn lemma_line_errs_le(lines: Seq<Seq<char>>, c: Config)
    ensures
        line_errs(lines, c) <= lines.len(),
    decreases lines.len(),
{
    if lines.len() > 0 {
        lemma_line_errs_le(lines.drop_last(), c);
    }
}

/// Runs the whole transformation over the decoded input lines, in order:
/// prefilter, chunking with the record limit, per-record projection, and
/// shard assignment.  Returns every shard, filled and ready to be written,
/// together with the count of per-record errors, which never abort a run.
///
/// The shards are exactly `pipeline_spec` of the input: deterministic in
/// the lines and the settings alone, so a re-run over the same input
/// produces the same shards.
#[verifier::loop_isolation(false)]
pub fn parse_and_output(lines: Vec<String>, config: Config) -> (out: (Vec<OutputJson>, u64))
    requires
        config.wf(),
        lines@.len() < i32::MAX,
    ensures
        shards_view(out.0@) == pipeline_spec(strs_view(lines@), config),
        out.1 == line_errs(consumed_lines(strs_view(lines@), config), config),
{
    let ghost ml = strs_view(lines@);
    let n = lines.len();
    let mut pipe = Pipeline::new(config);
    let mut shards: Vec<OutputJson> = Vec::new();
    let mut errs: u64 = 0;
    let mut i: usize = 0;
    proof {
        assert(ml.take(0int) =~= Seq::<Seq<char>>::empty());
        assert(shards_view(shards@) =~= Seq::<ShardModel>::empty());
    }
    while i < n && pipe.wants_more()
        invariant
            i <= n,
            n == lines@.len(),
            pipe.wf(),
            pipe.config == config,
            pipe.count == i,
            config.with_limiter ==> i <= config.limit,
            shards@.len() <= i,
            errs <= i,
            strs_view(pipe.buffer@) == pipe_fold(ml.take(i as int), config).chunk,
            shards_view(shards@) == pipe_fold(ml.take(i as int), config).shards,
            pipe.manager.file_counter == shards@.len(),
            errs + chunk_errs(pipe_fold(ml.take(i as int), config).chunk, config) == line_errs(
                ml.take(i as int),
                config,
            ),
        decreases n - i,
    {
        let ghost st = pipe_fold(ml.take(i as int), config);
        proof {
            assert(ml.take(i + 1).drop_last() =~= ml.take(i as int));
            assert(ml.take(i + 1).last() == lines@[i as int]@);
        }
        let line = lines[i].clone();
        let job = pipe.push_line(line);
        match job {
            Some((chunk, shard)) => {
                let mut shard = shard;
                proof {
                    lemma_chunk_errs_le(strs_view(chunk@), config);
                }
                let e = process_buffer(chunk, &pipe.config, &mut shard);
                proof {
                    let st1 = pipe_fold(ml.take(i + 1), config);
                    let ch = next_chunk(st.chunk, lines@[i as int]@, config);
                    assert(st1 == pipe_step(st, lines@[i as int]@, config));
                    assert(ch.drop_last() =~= st.chunk);
                    assert(chunk_errs(ch, config) == chunk_errs(st.chunk, config) + (
                    if record_of(lines@[i as int]@, config) is None {
                        1nat
                    } else {
                        0nat
                    }));
                    assert(strs_view(chunk@) == ch);
                    assert(errs + e == line_errs(ml.take(i + 1), config));
                    lemma_line_errs_le(ml.take(i + 1), config);
                }
                errs = errs + e;
                shards.push(shard);
                proof {
                    let st1 = pipe_fold(ml.take(i + 1), config);
                    let ch = next_chunk(st.chunk, lines@[i as int]@, config);
                    assert(strs_view(shard.buffer@) == chunk_records(ch, config));
                    assert(shards_view(shards@) =~= st.shards.push(shard_model(
                        st.shards.len() as int,
                        ch,
                        config,
                    )));
                    assert(st1.chunk =~= Seq::<Seq<char>>::empty());
                    assert(strs_view(pipe.buffer@) =~= st1.chunk);
                }
            },
            None => {
                proof {
                    let st1 = pipe_fold(ml.take(i + 1), config);
                    let ch = next_chunk(st.chunk, lines@[i as int]@, config);
                    assert(st1 == pipe_step(st, lines@[i as int]@, config));
                    if !skip_spec(lines@[i as int]@, config) {
                        assert(ch.drop_last() =~= st.chunk);
                        assert(chunk_errs(ch, config) == chunk_errs(st.chunk, config) + (
                        if record_of(lines@[i as int]@, config) is None {
                            1nat
                        } else {
                            0nat
                        }));
                    }
                }
            },
        }
        i += 1;
    }
    proof {
        assert(ml.take(i as int) =~= consumed_lines(ml, config));
    }
    let ghost stf = pipe_fold(consumed_lines(ml, config), config);
    let job = pipe.finish();
    match job {
        Some((chunk, shard)) => {
            let mut shard = shard;
            proof {
                lemma_chunk_errs_le(strs_view(chunk@), config);
                lemma_line_errs_le(consumed_lines(ml, config), config);
            }
            let e = process_buffer(chunk, &pipe.config, &mut shard);
            proof {
                assert(errs + e == line_errs(consumed_lines(ml, config), config));
            }
            errs = errs + e;
            shards.push(shard);
            proof {
                assert(strs_view(shard.buffer@) == chunk_records(stf.chunk, config));
                assert(shards_view(shards@) =~= stf.shards.push(shard_model(
                    stf.shards.len() as int,
                    stf.chunk,
                    config,
                )));
                assert(shards_view(shards@) == pipe_finish(stf, config));
            }
        },
        None => {
            proof {
                assert(shards_view(shards@) == pipe_finish(stf, config));
            }
        },
    }
    (shards, errs)
}

} // verus!

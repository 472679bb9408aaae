//! Merging one document into another: key by key at the top, at the end of a
//! path of keys, or recursively through nested objects.

use crate::depth::{validate_depth, within_depth, MAX_JSONB_DEPTH};
use crate::error::{outcome, Argument, Error};
use crate::value::{
    fields_map, is_key_at, lemma_fields_map, lemma_fields_map_push, view_of, Json, Object, Value,
};
use vstd::prelude::*;

verus! {

/// The fields of `target` and of `source` together; where both hold a key,
/// the value of `source` stands.
pub open spec fn merge_maps(
    target: Map<Seq<char>, Json>,
    source: Map<Seq<char>, Json>,
) -> Map<Seq<char>, Json> {
    target.union_prefer_right(source)
}

/// The shallow merge of two documents: both have to be objects.
pub open spec fn merge_shallow(target: Json, source: Json) -> Result<Json, Error> {
    match (target, source) {
        (Json::Object(t), Json::Object(s)) => Ok(Json::Object(merge_maps(t, s))),
        (Json::Object(_), _) => Err(
            Error::NotAnObject { argument: Argument::Source, found: source.kind() },
        ),
        _ => Err(Error::NotAnObject { argument: Argument::Target, found: target.kind() }),
    }
}

/// A shallow merge holds every key of the target that the source lacks, with
/// the target's value; every key of the source, with the source's value; and
/// no other key.
pub proof fn lemma_merge_shallow_keys(
    target: Map<Seq<char>, Json>,
    source: Map<Seq<char>, Json>,
    key: Seq<char>,
)
    ensures
        target.contains_key(key) && !source.contains_key(key) ==> merge_maps(
            target,
            source,
        ).contains_key(key) && merge_maps(target, source)[key] == target[key],
        source.contains_key(key) ==> merge_maps(target, source).contains_key(key) && merge_maps(
            target,
            source,
        )[key] == source[key],
        merge_maps(target, source).contains_key(key) ==> target.contains_key(key)
            || source.contains_key(key),
{
}

/// Puts every field of `source` into `target`.
pub fn merge_into(target: &mut Object, source: &Object)
    ensures
        final(target)@ == merge_maps(old(target)@, source@),
{
    let n = source.len();
    let ghost fields = source.fields();
    let mut i: usize = 0;
    assert(fields.take(0) =~= Seq::empty());
    assert(target@ =~= merge_maps(old(target)@, fields_map(fields.take(0))));
    while i < n
        invariant
            i <= n,
            n == fields.len(),
            fields == source.fields(),
            target@ == merge_maps(old(target)@, fields_map(fields.take(i as int))),
        decreases n - i,
    {
        let key = source.key_at(i).clone();
        let value = source.value_at(i).duplicate();
        proof {
            assert(fields.take(i + 1) =~= fields.take(i as int).push(fields[i as int]));
            lemma_fields_map_push(fields.take(i as int), fields[i as int].0, fields[i as int].1);
        }
        target.insert(key, value);
        assert(target@ =~= merge_maps(old(target)@, fields_map(fields.take(i + 1))));
        i += 1;
    }
    assert(fields.take(n as int) =~= fields);
}

/// What `jsonb_merge_shallow` gives.
pub open spec fn merge_shallow_checked(target: Option<Json>, source: Option<Json>) -> Result<
    Option<Json>,
    Error,
> {
    match (target, source) {
        (Some(t), Some(s)) => match merge_shallow_guarded(t, s) {
            Ok(merged) => Ok(Some(merged)),
            Err(e) => Err(e),
        },
        _ => Ok(None),
    }
}

/// The view of what a shallow merge of documents that may be absent gave.
pub open spec fn shallow_outcome(r: Result<Option<Value>, Error>) -> Result<Option<Json>, Error> {
    match r {
        Ok(merged) => Ok(view_of(merged)),
        Err(e) => Err(e),
    }
}

/// Merges the top-level keys of `source` into `target`. Where an argument is
/// absent there is no result. Otherwise `source` has to keep within the
/// nesting bound, and both have to be objects.
pub fn jsonb_merge_shallow(target: Option<Value>, source: Option<Value>) -> (r: Result<
    Option<Value>,
    Error,
>)
    ensures
        shallow_outcome(r) == merge_shallow_checked(view_of(target), view_of(source)),
{
    let target = match target {
        Some(t) => t,
        None => {
            return Ok(None);
        },
    };
    let source = match source {
        Some(s) => s,
        None => {
            return Ok(None);
        },
    };
    match merge_values(target, &source) {
        Ok(merged) => Ok(Some(merged)),
        Err(e) => Err(e),
    }
}

/// The shallow merge of two present documents, after `source` has been
/// held to the nesting bound.
pub open spec fn merge_shallow_guarded(target: Json, source: Json) -> Result<Json, Error> {
    if !within_depth(source, MAX_JSONB_DEPTH as nat) {
        Err(Error::DepthExceeded { max_depth: MAX_JSONB_DEPTH })
    } else {
        merge_shallow(target, source)
    }
}

/// Shallow merge of two present documents.
fn merge_values(target: Value, source: &Value) -> (r: Result<Value, Error>)
    ensures
        outcome(r) == merge_shallow_guarded(target@, source@),
{
    match validate_depth(source, MAX_JSONB_DEPTH) {
        Ok(()) => {},
        Err(e) => {
            return Err(Error::DepthExceeded { max_depth: e.max_depth });
        },
    }
    match target {
        Value::Object(mut merged) => {
            match source {
                Value::Object(fields) => {
                    merge_into(&mut merged, fields);
                    Ok(Value::Object(merged))
                },
                _ => Err(Error::NotAnObject { argument: Argument::Source, found: source.kind() }),
            }
        },
        _ => Err(Error::NotAnObject { argument: Argument::Target, found: target.kind() }),
    }
}

/// Merges the top-level keys of `source` into `target`: `source` has to keep
/// within the nesting bound, and both have to be objects.
pub fn jsonb_smart_patch_scalar(target: Value, source: Value) -> (r: Result<Value, Error>)
    ensures
        outcome(r) == merge_shallow_guarded(target@, source@),
{
    merge_values(target, &source)
}


/// The keys of a path, as texts.
pub open spec fn keys_view(path: Seq<String>) -> Seq<Seq<char>> {
    path.map_values(|s: String| s@)
}

/// Merging the fields `source` into the object that `path` leads to from
/// `target`, after `hops` of its keys have been followed. Every node on the
/// way has to be an object. A key that is missing on the way stands for an
/// empty object, which the merge then creates.
pub open spec fn merge_at_path(
    target: Json,
    source: Map<Seq<char>, Json>,
    path: Seq<Seq<char>>,
    hops: nat,
) -> Result<Json, Error>
    decreases path.len() - hops,
{
    if hops >= path.len() {
        match target {
            Json::Object(t) => Ok(Json::Object(merge_maps(t, source))),
            _ => Err(Error::NotAnObject { argument: Argument::Target, found: target.kind() }),
        }
    } else {
        match target {
            Json::Object(t) => {
                let key = path[hops as int];
                let child = if t.contains_key(key) {
                    t[key]
                } else {
                    Json::Object(Map::empty())
                };
                if hops + 1 == path.len() {
                    match child {
                        Json::Object(c) => Ok(
                            Json::Object(t.insert(key, Json::Object(merge_maps(c, source)))),
                        ),
                        _ => Err(Error::MergeIntoNonObject { found: child.kind() }),
                    }
                } else {
                    match merge_at_path(child, source, path, hops + 1) {
                        Ok(merged) => Ok(Json::Object(t.insert(key, merged))),
                        Err(e) => Err(e),
                    }
                }
            },
            _ => Err(Error::PathNavigation { hops: hops as usize, found: target.kind() }),
        }
    }
}

/// What `jsonb_merge_at_path` gives: `source` has to keep within the nesting
/// bound and be an object.
pub open spec fn merge_at_path_checked(target: Json, source: Json, path: Seq<Seq<char>>) -> Result<
    Json,
    Error,
> {
    if !within_depth(source, MAX_JSONB_DEPTH as nat) {
        Err(Error::DepthExceeded { max_depth: MAX_JSONB_DEPTH })
    } else {
        match source {
            Json::Object(s) => merge_at_path(target, s, path, 0),
            _ => Err(Error::NotAnObject { argument: Argument::Source, found: source.kind() }),
        }
    }
}

/// With an empty path, merging at a path is the shallow merge at the root.
pub proof fn lemma_merge_at_empty_path(target: Json, source: Map<Seq<char>, Json>)
    requires
        within_depth(Json::Object(source), MAX_JSONB_DEPTH as nat),
    ensures
        merge_at_path_checked(target, Json::Object(source), Seq::empty()) == merge_shallow(
            target,
            Json::Object(source),
        ),
{
}

/// A source that nests deeper than the bound is never merged at a path.
pub proof fn lemma_merge_at_path_guarded(target: Json, source: Json, path: Seq<Seq<char>>)
    requires
        !within_depth(source, MAX_JSONB_DEPTH as nat),
    ensures
        merge_at_path_checked(target, source, path) == Err::<Json, Error>(
            Error::DepthExceeded { max_depth: MAX_JSONB_DEPTH },
        ),
{
}

/// Merging at a path leaves alone what lies beside the path: a field of the
/// root under another key than the first of the path is after the merge what
/// it was before.
pub proof fn lemma_merge_at_path_keeps_siblings(
    target: Json,
    source: Map<Seq<char>, Json>,
    path: Seq<Seq<char>>,
    other: Seq<char>,
)
    requires
        path.len() > 0,
        other != path[0],
        merge_at_path(target, source, path, 0) is Ok,
    ensures
        merge_at_path(target, source, path, 0)->Ok_0.get(other) == target.get(other),
{
}

/// Merges `source` into the object that the keys of `path` from `hops` on
/// lead to from `target`.
fn merge_at(target: Value, source: &Object, path: &[String], hops: usize) -> (r: Result<
    Value,
    Error,
>)
    requires
        hops <= path.len(),
    ensures
        outcome(r) == merge_at_path(target@, source@, keys_view(path@), hops as nat),
    decreases path.len() - hops,
{
    if hops >= path.len() {
        return match target {
            Value::Object(mut fields) => {
                merge_into(&mut fields, source);
                Ok(Value::Object(fields))
            },
            _ => Err(Error::NotAnObject { argument: Argument::Target, found: target.kind() }),
        };
    }
    match target {
        Value::Object(mut fields) => {
            let key = &path[hops];
            assert(keys_view(path@)[hops as int] == key@);
            let last = hops + 1 == path.len();
            match fields.index_of(key.as_str()) {
                Some(at) => {
                    let ghost before = fields@;
                    let _ = fields.len();
                    proof {
                        lemma_fields_map(fields.fields());
                    }
                    let child = fields.replace_value(at, Value::Null);
                    assert(child@ == before[key@]);
                    let merged = if last {
                        match child {
                            Value::Object(mut inner) => {
                                merge_into(&mut inner, source);
                                Value::Object(inner)
                            },
                            _ => {
                                return Err(Error::MergeIntoNonObject { found: child.kind() });
                            },
                        }
                    } else {
                        match merge_at(child, source, path, hops + 1) {
                            Ok(m) => m,
                            Err(e) => {
                                return Err(e);
                            },
                        }
                    };
                    let ghost merged_view = merged@;
                    let _ = fields.replace_value(at, merged);
                    assert(fields@ =~= before.insert(key@, merged_view));
                    Ok(Value::Object(fields))
                },
                None => {
                    let mut inner = Object::new();
                    let merged = if last {
                        merge_into(&mut inner, source);
                        Value::Object(inner)
                    } else {
                        match merge_at(Value::Object(inner), source, path, hops + 1) {
                            Ok(m) => m,
                            Err(e) => {
                                return Err(e);
                            },
                        }
                    };
                    fields.insert(key.clone(), merged);
                    Ok(Value::Object(fields))
                },
            }
        },
        _ => Err(Error::PathNavigation { hops, found: target.kind() }),
    }
}

/// Merges the fields of `source` into the object that the keys of `path`
/// lead to from the root of `target`, after `source` has been held to the
/// nesting bound. With an empty path this is the shallow merge at the root.
/// Fields beside the path stay as they are.
pub fn jsonb_merge_at_path(target: Value, source: Value, path: &[String]) -> (r: Result<
    Value,
    Error,
>)
    ensures
        outcome(r) == merge_at_path_checked(target@, source@, keys_view(path@)),
{
    match validate_depth(&source, MAX_JSONB_DEPTH) {
        Ok(()) => {},
        Err(e) => {
            return Err(Error::DepthExceeded { max_depth: e.max_depth });
        },
    }
    match &source {
        Value::Object(fields) => merge_at(target, fields, path, 0),
        _ => Err(Error::NotAnObject { argument: Argument::Source, found: source.kind() }),
    }
}

/// Merges the fields of `source` into the object that the keys of `path`
/// lead to: `jsonb_merge_at_path` under the name that patch callers use.
pub fn jsonb_smart_patch_nested(target: Value, source: Value, path: &[String]) -> (r: Result<
    Value,
    Error,
>)
    ensures
        outcome(r) == merge_at_path_checked(target@, source@, keys_view(path@)),
{
    jsonb_merge_at_path(target, source, path)
}


/// The deep merge of two objects, given by their fields: every key of either.
/// Under a key that both hold stands the deep merge of the two values, under
/// any other key the one value there is. (The fields of a document are
/// finitely many; fields without end, which no document has, would replace
/// what they meet.)
pub open spec fn deep_merge_maps(
    target: Map<Seq<char>, Json>,
    source: Map<Seq<char>, Json>,
) -> Map<Seq<char>, Json>
    decreases source, 0int,
{
    Map::new(
        |k: Seq<char>| target.contains_key(k) || source.contains_key(k),
        |k: Seq<char>|
            if source.contains_key(k) {
                if target.contains_key(k) && source.dom().finite() {
                    deep_merge(target[k], source[k])
                } else {
                    source[k]
                }
            } else {
                target[k]
            },
    )
}

/// The deep merge of two documents. Two objects merge key by key, and so do
/// the objects under a key that both hold. In every other case the source
/// replaces the target: arrays and scalars are never combined.
pub open spec fn deep_merge(target: Json, source: Json) -> Json
    decreases source, 1int,
{
    match (target, source) {
        (Json::Object(t), Json::Object(s)) => Json::Object(deep_merge_maps(t, s)),
        _ => source,
    }
}

/// Merging a document into itself changes nothing.
pub proof fn lemma_deep_merge_idempotent(target: Json)
    ensures
        deep_merge(target, target) == target,
    decreases target,
{
    match target {
        Json::Object(t) => {
            assert forall|k: Seq<char>| t.contains_key(k) implies #[trigger] deep_merge_maps(
                t,
                t,
            )[k] == t[k] by {
                if t.dom().finite() {
                    lemma_deep_merge_idempotent(t[k]);
                }
            }
            assert(deep_merge_maps(t, t) =~= t);
        },
        _ => {},
    }
}

/// The value that the keys of `path` lead to from `j`, through objects only.
pub open spec fn lookup(j: Json, path: Seq<Seq<char>>) -> Option<Json>
    decreases path.len(),
{
    if path.len() == 0 {
        Some(j)
    } else {
        match j.get(path[0]) {
            Some(member) => lookup(member, path.skip(1)),
            None => None,
        }
    }
}

/// `source` leaves the place that `path` names alone: somewhere along the
/// path it is an object that lacks the next key, and up to there it is an
/// object at every step.
pub open spec fn untouched(source: Json, path: Seq<Seq<char>>) -> bool
    decreases path.len(),
{
    path.len() > 0 && match source {
        Json::Object(s) => s.dom().finite() && (!s.contains_key(path[0]) || untouched(
            s[path[0]],
            path.skip(1),
        )),
        _ => false,
    }
}

/// A deep merge keeps, at every level of nesting, what the source does not
/// touch: a place of the target that the source leaves alone holds after the
/// merge what it held before.
pub proof fn lemma_deep_merge_keeps_untouched(target: Json, source: Json, path: Seq<Seq<char>>)
    requires
        untouched(source, path),
        lookup(target, path) is Some,
    ensures
        lookup(deep_merge(target, source), path) == lookup(target, path),
    decreases path.len(),
{
    let key = path[0];
    let t = target->Object_0;
    let s = source->Object_0;
    assert(target is Object);
    assert(t.contains_key(key));
    assert(deep_merge_maps(t, s).contains_key(key));
    if s.contains_key(key) {
        lemma_deep_merge_keeps_untouched(t[key], s[key], path.skip(1));
    }
}

/// The deep merge of `source` into `target`: two objects merge key by key,
/// recursively; in every other case `source` replaces `target`.
pub fn deep_merge_recursive(target: Value, source: Value) -> (r: Value)
    ensures
        r@ == deep_merge(target@, source@),
    decreases source@,
{
    let ghost whole = source@;
    match source {
        Value::Object(mut theirs) => {
            match target {
                Value::Object(mut ours) => {
                    let n = theirs.len();
                    let ghost fields = theirs.fields();
                    let ghost start = ours@;
                    proof {
                        lemma_fields_map(fields);
                        assert(fields.take(0) =~= Seq::empty());
                        assert(ours@ =~= deep_merge_maps(start, fields_map(fields.take(0))));
                    }
                    let mut i: usize = 0;
                    while i < n
                        invariant
                            i <= n,
                            n == fields.len(),
                            theirs.fields().len() == n,
                            forall|j: int| i <= j < n ==> theirs.fields()[j] == fields[j],
                            crate::value::distinct_keys(fields),
                            whole == source@,
                            whole == Json::Object(fields_map(fields)),
                            fields_map(fields).dom().finite(),
                            forall|j: int|
                                0 <= j < n ==> #[trigger] fields_map(fields)[fields[j].0]
                                    == fields[j].1,
                            forall|k: Seq<char>| #[trigger]
                                fields_map(fields).contains_key(k) <==> exists|j: int|
                                    is_key_at(fields, k, j),
                            ours@ == deep_merge_maps(start, fields_map(fields.take(i as int))),
                        decreases n - i,
                    {
                        let key = theirs.key_at(i).clone();
                        let value = theirs.replace_value(i, Value::Null);
                        let ghost seen = fields_map(fields.take(i as int));
                        proof {
                            let prefix = fields.take(i as int);
                            lemma_fields_map(prefix);
                            if seen.contains_key(key@) {
                                let j = choose|j: int| is_key_at(prefix, key@, j);
                                assert(fields[j].0 == fields[i as int].0);
                            }
                            assert(fields.take(i + 1) =~= prefix.push(fields[i as int]));
                            lemma_fields_map_push(prefix, fields[i as int].0, fields[i as int].1);
                            lemma_fields_map(fields.take(i + 1));
                            assert(is_key_at(fields, key@, i as int));
                            assert(fields_map(fields)[fields[i as int].0] == value@);
                            assert(decreases_to!(whole => whole->Object_0));
                            assert(!seen.contains_key(key@));
                        }
                        let ghost next = fields_map(fields.take(i + 1));
                        assert(next == seen.insert(key@, value@));
                        match ours.index_of_key(&key) {
                            Some(at) => {
                                let ghost before = ours@;
                                let _ = ours.len();
                                proof {
                                    lemma_fields_map(ours.fields());
                                }
                                let mine = ours.replace_value(at, Value::Null);
                                assert(mine@ == before[key@]);
                                assert(before.contains_key(key@));
                                assert(start.contains_key(key@));
                                assert(before[key@] == start[key@]);
                                let merged = deep_merge_recursive(mine, value);
                                let ghost merged_view = merged@;
                                let _ = ours.replace_value(at, merged);
                                assert(ours@ =~= before.insert(key@, merged_view));
                                assert(ours@ =~= deep_merge_maps(start, next));
                            },
                            None => {
                                ours.insert(key, value);
                                assert(!start.contains_key(key@));
                                assert(ours@ =~= deep_merge_maps(start, next));
                            },
                        }
                        i += 1;
                    }
                    assert(fields.take(n as int) =~= fields);
                    Value::Object(ours)
                },
                _ => Value::Object(theirs),
            }
        },
        other => other,
    }
}

/// The deep merge of `source` into `target`, after `source` has been held to
/// the nesting bound.
pub fn jsonb_deep_merge(target: Value, source: Value) -> (r: Result<Value, Error>)
    ensures
        outcome(r) == (if within_depth(source@, MAX_JSONB_DEPTH as nat) {
            Ok(deep_merge(target@, source@))
        } else {
            Err(Error::DepthExceeded { max_depth: MAX_JSONB_DEPTH })
        }),
{
    match validate_depth(&source, MAX_JSONB_DEPTH) {
        Ok(()) => Ok(deep_merge_recursive(target, source)),
        Err(e) => Err(Error::DepthExceeded { max_depth: e.max_depth }),
    }
}


/// Merges `source` into the first element of the array under `array_path`
/// that holds `match_value` under `match_key`. The field has to hold an
/// array, `source` has to keep within the nesting bound and be an object.
/// Without a match the document comes back as it was.
pub fn jsonb_smart_patch_array(
    target: Value,
    source: Value,
    array_path: &str,
    match_key: &str,
    match_value: Value,
) -> (r: Result<Value, Error>)
    ensures
        outcome(r) == crate::array_ops::array_update_where(
            target@,
            array_path@,
            match_key@,
            match_value@,
            source@,
        ),
{
    crate::array_ops::update_first(target, array_path, match_key, &match_value, &source)
}

} // verus!

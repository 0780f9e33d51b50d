//! Schemas as lists of field names, and what the writer derives from them:
//! the projection that leaves out auxiliary sort columns, and the columns
//! that carry locality-sensitive hash codes.

use crate::writer::WriterError;
use vstd::prelude::*;
use vstd::string::StringExecFns;

verus! {

/// Column `i` is the first column named like `name`.
pub open spec fn is_index_of(names: Seq<String>, name: String, i: int) -> bool {
    &&& 0 <= i < names.len()
    &&& names[i]@ == name@
    &&& forall|j: int| 0 <= j < i ==> names[j]@ != name@
}

/// No column has that name.
pub open spec fn is_missing(names: Seq<String>, name: String) -> bool {
    forall|j: int| 0 <= j < names.len() ==> names[j]@ != name@
}

/// The position of the first column named like `name`, if there is one.
pub open spec fn position_of(names: Seq<String>, name: String) -> Option<int> {
    if is_missing(names, name) {
        None
    } else {
        Some(choose|i: int| is_index_of(names, name, i))
    }
}

/// A name that is found is not missing.
pub proof fn lemma_found(names: Seq<String>, name: String, i: int)
    requires
        is_index_of(names, name, i),
    ensures
        !is_missing(names, name),
        position_of(names, name) == Some(i),
{
    let c = choose|c: int| is_index_of(names, name, c);
    if c < i {
        assert(names[c]@ == name@);
    } else if i < c {
        assert(names[i]@ == name@);
    }
}

/// The position of the first column named `name`.
pub fn index_of(names: &Vec<String>, name: &String) -> (found: Option<usize>)
    ensures
        found matches Some(i) ==> is_index_of(names@, *name, i as int),
        found.is_none() ==> is_missing(names@, *name),
        position_of(names@, *name) == match found {
            Some(i) => Some(i as int),
            None => None,
        },
{
    let mut i: usize = 0;
    while i < names.len()
        invariant
            i <= names@.len(),
            forall|j: int| 0 <= j < i ==> names@[j]@ != name@,
        decreases names.len() - i,
    {
        if names[i] == *name {
            proof {
                lemma_found(names@, *name, i as int);
            }
            return Some(i);
        }
        i += 1;
    }
    None
}

/// The first auxiliary sort column that names no column of the schema is
/// the one at `k`.
pub open spec fn first_unknown(schema: Seq<String>, aux: Seq<String>, k: int) -> bool {
    &&& 0 <= k < aux.len()
    &&& is_missing(schema, aux[k])
    &&& forall|a: int| 0 <= a < k ==> !is_missing(schema, #[trigger] aux[a])
}

/// Every auxiliary sort column names a column of the schema.
pub open spec fn all_known(schema: Seq<String>, aux: Seq<String>) -> bool {
    forall|a: int| 0 <= a < aux.len() ==> !is_missing(schema, #[trigger] aux[a])
}

/// The columns among the first `upto` that are no auxiliary sort columns,
/// each given as the position of the first column of its name.
pub open spec fn kept_columns(schema: Seq<String>, aux: Seq<String>, upto: nat) -> Seq<usize>
    decreases upto,
{
    if upto == 0 {
        Seq::empty()
    } else {
        let before = kept_columns(schema, aux, (upto - 1) as nat);
        if is_missing(aux, schema[upto - 1]) {
            before.push(position_of(schema, schema[upto - 1]).unwrap() as usize)
        } else {
            before
        }
    }
}

/// The columns that the final writer keeps: all of them where there is no
/// auxiliary sort column, and otherwise those that are none.
pub open spec fn writer_columns(schema: Seq<String>, aux: Seq<String>) -> Seq<usize> {
    if aux.len() == 0 {
        Seq::new(schema.len(), |i: int| i as usize)
    } else {
        kept_columns(schema, aux, schema.len())
    }
}

/// The projection of the target schema that the final writer works on:
/// auxiliary sort columns serve the sort only and are left out.
///
/// Fails if an auxiliary sort column names no column of the schema, and
/// names the first such.
pub fn writer_projection(schema: &Vec<String>, aux_sort_cols: &Vec<String>) -> (r: Result<
    Vec<usize>,
    WriterError,
>)
    ensures
        match r {
            Ok(columns) => all_known(schema@, aux_sort_cols@) && columns@ == writer_columns(
                schema@,
                aux_sort_cols@,
            ),
            Err(WriterError::UnknownColumn(k)) => first_unknown(
                schema@,
                aux_sort_cols@,
                k as int,
            ),
            Err(_) => false,
        },
{
    let mut a: usize = 0;
    while a < aux_sort_cols.len()
        invariant
            a <= aux_sort_cols@.len(),
            forall|b: int| 0 <= b < a ==> !is_missing(schema@, #[trigger] aux_sort_cols@[b]),
        decreases aux_sort_cols.len() - a,
    {
        if index_of(schema, &aux_sort_cols[a]).is_none() {
            return Err(WriterError::UnknownColumn(a));
        }
        a += 1;
    }
    let mut columns: Vec<usize> = Vec::new();
    let mut i: usize = 0;
    if aux_sort_cols.len() == 0 {
        while i < schema.len()
            invariant
                i <= schema@.len(),
                columns@ == Seq::new(i as nat, |k: int| k as usize),
            decreases schema.len() - i,
        {
            columns.push(i);
            assert(columns@ =~= Seq::new((i + 1) as nat, |k: int| k as usize));
            i += 1;
        }
        return Ok(columns);
    }
    while i < schema.len()
        invariant
            i <= schema@.len(),
            columns@ == kept_columns(schema@, aux_sort_cols@, i as nat),
        decreases schema.len() - i,
    {
        if index_of(aux_sort_cols, &schema[i]).is_none() {
            match index_of(schema, &schema[i]) {
                Some(at) => {
                    columns.push(at);
                },
                None => {
                    assert(schema@[i as int]@ == schema@[i as int]@);
                    assert(false);
                },
            }
        }
        i += 1;
    }
    Ok(columns)
}

/// The name of the column that carries the hash codes of `field`.
pub open spec fn lsh_name(field: Seq<char>) -> Seq<char> {
    field + "_LSH"@
}

/// The name of the column that carries the hash codes of `field`.
pub fn lsh_column_name(field: &String) -> (name: String)
    ensures
        name@ == lsh_name(field@),
{
    let mut name = field.clone();
    name.append("_LSH");
    name
}

/// The hash columns that the first `upto` fields add to a schema with the
/// names `names`: one for each field, in order, unless a column of that name
/// is there already.
pub open spec fn added_lsh_columns(names: Seq<Seq<char>>, fields: Seq<String>, upto: nat) -> Seq<
    Seq<char>,
>
    decreases upto,
{
    if upto == 0 {
        Seq::empty()
    } else {
        let before = added_lsh_columns(names, fields, (upto - 1) as nat);
        let name = lsh_name(fields[upto - 1]@);
        if (names + before).contains(name) {
            before
        } else {
            before.push(name)
        }
    }
}

/// The names of the columns.
pub open spec fn names_of(schema: Seq<String>) -> Seq<Seq<char>> {
    Seq::new(schema.len(), |j: int| schema[j]@)
}

/// The target schema with a hash column for each of `lsh_fields`: the
/// column is appended unless the schema has a column of that name.
pub fn augmented_schema(schema: Vec<String>, lsh_fields: &Vec<String>) -> (out: Vec<String>)
    ensures
        names_of(out@) == names_of(schema@) + added_lsh_columns(
            names_of(schema@),
            lsh_fields@,
            lsh_fields@.len(),
        ),
{
    let ghost names = names_of(schema@);
    let mut out = schema;
    let mut f: usize = 0;
    while f < lsh_fields.len()
        invariant
            f <= lsh_fields@.len(),
            names_of(out@) == names + added_lsh_columns(names, lsh_fields@, f as nat),
        decreases lsh_fields.len() - f,
    {
        let name = lsh_column_name(&lsh_fields[f]);
        let ghost before = names_of(out@);
        let found = index_of(&out, &name);
        proof {
            if found.is_some() {
                let at = found.unwrap() as int;
                assert(before[at] == name@);
                assert(before.contains(name@));
            } else {
                if before.contains(name@) {
                    let at = choose|at: int| 0 <= at < before.len() && before[at] == name@;
                    assert(out@[at]@ == name@);
                }
            }
        }
        if found.is_none() {
            out.push(name);
            assert(names_of(out@) =~= before.push(name@));
        }
        f += 1;
    }
    out
}

/// What is to be done for one field that asks for hash codes.
#[derive(Clone, Copy, Debug, PartialEq, Eq, Structural)]
pub struct LshStep {
    /// The position of the field among the fields that ask for hash codes.
    pub field: usize,
    /// The column of the batch that holds the field's embeddings.
    pub source: usize,
    /// The column that takes the hash codes; none if the batch has no such
    /// column, in which case the codes are computed and dropped.
    pub target: Option<usize>,
}

/// The steps for the first `upto` fields: one for each field that the
/// batch has a column for, in the order of the fields.
pub open spec fn lsh_steps(schema: Seq<String>, fields: Seq<String>, upto: nat) -> Seq<LshStep>
    decreases upto,
{
    if upto == 0 {
        Seq::empty()
    } else {
        let before = lsh_steps(schema, fields, (upto - 1) as nat);
        match position_of(schema, fields[upto - 1]) {
            Some(source) => before.push(
                LshStep {
                    field: (upto - 1) as usize,
                    source: source as usize,
                    target: lsh_target(schema, fields[upto - 1]@),
                },
            ),
            None => before,
        }
    }
}

/// The first column named like the hash column of `field`.
pub open spec fn lsh_target(schema: Seq<String>, field: Seq<char>) -> Option<usize> {
    if exists|t: int| is_lsh_target(schema, field, t) {
        Some((choose|t: int| is_lsh_target(schema, field, t)) as usize)
    } else {
        None
    }
}

/// Column `t` is the first column named like the hash column of `field`.
pub open spec fn is_lsh_target(schema: Seq<String>, field: Seq<char>, t: int) -> bool {
    &&& 0 <= t < schema.len()
    &&& schema[t]@ == lsh_name(field)
    &&& forall|j: int| 0 <= j < t ==> schema[j]@ != lsh_name(field)
}

/// For each field that asks for hash codes and that the batch has a column
/// for: where its embeddings are and where its hash codes go.
pub fn lsh_targets(schema: &Vec<String>, lsh_fields: &Vec<String>) -> (steps: Vec<LshStep>)
    ensures
        steps@ == lsh_steps(schema@, lsh_fields@, lsh_fields@.len()),
{
    let mut steps: Vec<LshStep> = Vec::new();
    let mut f: usize = 0;
    while f < lsh_fields.len()
        invariant
            f <= lsh_fields@.len(),
            steps@ == lsh_steps(schema@, lsh_fields@, f as nat),
        decreases lsh_fields.len() - f,
    {
        match index_of(schema, &lsh_fields[f]) {
            Some(source) => {
                let name = lsh_column_name(&lsh_fields[f]);
                let found = index_of(schema, &name);
                let ghost field = lsh_fields@[f as int]@;
                proof {
                    match found {
                        Some(t) => {
                            assert(is_lsh_target(schema@, field, t as int));
                            let c = choose|c: int| is_lsh_target(schema@, field, c);
                            if c < t {
                                assert(schema@[c]@ == name@);
                            } else if t < c {
                                assert(schema@[t as int]@ == name@);
                            }
                        },
                        None => {
                            if exists|t: int| is_lsh_target(schema@, field, t) {
                                let c = choose|c: int| is_lsh_target(schema@, field, c);
                                assert(schema@[c]@ == name@);
                            }
                        },
                    }
                }
                steps.push(LshStep { field: f, source, target: found });
            },
            None => {},
        }
        f += 1;
    }
    steps
}

} // verus!

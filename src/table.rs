use vstd::prelude::*;
use vstd::utf8::encode_utf8;
use crate::codec::{
    decode_cell, decode_spec, encode_cell, encode_spec, is_reverse, lemma_round_trip, prefix_free,
    LangMap, ReverseMap,
};
use crate::crypto::{decrypt_data, decrypt_spec, encrypt_data, is_envelope};
use crate::error::CoreError;
use crate::model::{
    grid, texts, ColumnSchema, IndexEntry, TableIndex, TableMeta, TableSchema, TranslateRequest,
};
use crate::text::{chars_of, push_char, push_str};

verus! {

/// A request is well formed when it names at least one column and every row
/// has one cell per column.
pub open spec fn well_formed(slot_len: int, rows: Seq<Vec<String>>) -> bool {
    slot_len > 0 && forall|i: int| 0 <= i < rows.len() ==> #[trigger] rows[i]@.len() == slot_len
}

/// Checks the shape of a request.
pub fn validate_request(req: &TranslateRequest) -> (r: Result<(), CoreError>)
    ensures
        r is Ok <==> well_formed(req.slot@.len() as int, req.data@),
        r matches Err(e) ==> e == CoreError::MalformedRequest,
{
    if req.slot.len() == 0 {
        return Err(CoreError::MalformedRequest);
    }
    let mut i: usize = 0;
    while i < req.data.len()
        invariant
            i <= req.data@.len(),
            forall|k: int| 0 <= k < i ==> #[trigger] req.data@[k]@.len() == req.slot@.len(),
        decreases req.data.len() - i,
    {
        if req.data[i].len() != req.slot.len() {
            return Err(CoreError::MalformedRequest);
        }
        i = i + 1;
    }
    Ok(())
}

/// Every cell of every row encoded under the map.
pub fn encode_rows(data: &Vec<Vec<String>>, map: &LangMap) -> (r: Vec<Vec<String>>)
    requires
        map.wf(),
    ensures
        r@.len() == data@.len(),
        forall|i: int|
            0 <= i < data@.len() ==> (#[trigger] r@[i])@.len() == data@[i]@.len() && forall|j: int|
                0 <= j < data@[i]@.len() ==> #[trigger] r@[i]@[j]@ == encode_spec(
                    data@[i]@[j]@,
                    map@,
                ),
{
    let mut out: Vec<Vec<String>> = Vec::new();
    let mut i: usize = 0;
    while i < data.len()
        invariant
            i <= data@.len(),
            map.wf(),
            out@.len() == i,
            forall|k: int|
                0 <= k < i ==> (#[trigger] out@[k])@.len() == data@[k]@.len() && forall|j: int|
                    0 <= j < data@[k]@.len() ==> #[trigger] out@[k]@[j]@ == encode_spec(
                        data@[k]@[j]@,
                        map@,
                    ),
        decreases data.len() - i,
    {
        let row = &data[i];
        let mut enc: Vec<String> = Vec::new();
        let mut j: usize = 0;
        while j < row.len()
            invariant
                j <= row@.len(),
                map.wf(),
                enc@.len() == j,
                forall|l: int| 0 <= l < j ==> #[trigger] enc@[l]@ == encode_spec(row@[l]@, map@),
            decreases row.len() - j,
        {
            enc.push(encode_cell(row[j].as_str(), map));
            j = j + 1;
        }
        out.push(enc);
        i = i + 1;
    }
    out
}

/// The text of column `col`: each row's cell followed by a newline, in row
/// order.
pub open spec fn column_text_spec(rows: Seq<Seq<Seq<char>>>, col: int) -> Seq<char>
    decreases rows.len(),
{
    if rows.len() == 0 {
        Seq::empty()
    } else {
        column_text_spec(rows.drop_last(), col) + rows.last()[col] + seq!['\n']
    }
}

/// Builds the text of column `col` from the rows.
pub fn column_text(rows: &Vec<Vec<String>>, col: usize) -> (r: String)
    requires
        forall|i: int| 0 <= i < rows@.len() ==> col < (#[trigger] rows@[i])@.len(),
    ensures
        r@ == column_text_spec(grid(rows@), col as int),
{
    let mut out = String::new();
    let mut i: usize = 0;
    while i < rows.len()
        invariant
            i <= rows@.len(),
            forall|k: int| 0 <= k < rows@.len() ==> col < (#[trigger] rows@[k])@.len(),
            out@ == column_text_spec(grid(rows@.take(i as int)), col as int),
        decreases rows.len() - i,
    {
        push_str(&mut out, rows[i][col].as_str());
        push_char(&mut out, '\n');
        assert(grid(rows@.take(i + 1)).drop_last() =~= grid(rows@.take(i as int)));
        i = i + 1;
    }
    assert(rows@.take(rows@.len() as int) =~= rows@);
    out
}

/// The name of a column's data file: the column name with ".odb.part1".
pub fn column_file_name(name: &String) -> (r: String)
    ensures
        r@ == name@ + ".odb.part1"@,
{
    let mut s = name.clone();
    push_str(&mut s, ".odb.part1");
    s
}

/// `schema` lists the names in order, each typed "string".
pub open spec fn schema_for(schema: TableSchema, names: Seq<Seq<char>>) -> bool {
    &&& schema.columns@.len() == names.len()
    &&& forall|j: int|
        0 <= j < names.len() ==> (#[trigger] schema.columns@[j]).name@ == names[j]
            && schema.columns@[j].column_type@ == "string"@
}

/// Builds the schema of a table with the given column names.
pub fn build_schema(slot: &Vec<String>) -> (r: TableSchema)
    ensures
        schema_for(r, texts(slot@)),
{
    let mut columns: Vec<ColumnSchema> = Vec::new();
    let mut j: usize = 0;
    while j < slot.len()
        invariant
            j <= slot@.len(),
            columns@.len() == j,
            forall|k: int|
                0 <= k < j ==> (#[trigger] columns@[k]).name@ == slot@[k]@
                    && columns@[k].column_type@ == "string"@,
        decreases slot.len() - j,
    {
        let mut t = String::new();
        push_str(&mut t, "string");
        columns.push(ColumnSchema { name: slot[j].clone(), column_type: t });
        j = j + 1;
    }
    TableSchema { columns }
}

/// `meta` records the dataset, its row count, one partition, and `now` as
/// both times.
pub open spec fn meta_for(meta: TableMeta, dataset: Seq<char>, rows: int, now: Seq<char>) -> bool {
    &&& meta.table_name@ == dataset
    &&& meta.record_count == rows
    &&& meta.partition_count == 1
    &&& meta.created_at@ == now
    &&& meta.updated_at@ == now
}

/// Builds the metadata of a table written at `now`.
pub fn build_meta(dataset: &String, record_count: usize, now: String) -> (r: TableMeta)
    ensures
        meta_for(r, dataset@, record_count as int, now@),
{
    let created = now.clone();
    TableMeta {
        table_name: dataset.clone(),
        record_count,
        partition_count: 1,
        created_at: created,
        updated_at: now,
    }
}

/// `index` is keyed by `key`, with one entry per row: ids from 1, offsets
/// ten apart from 0, all in the key column's file.
pub open spec fn index_for(index: TableIndex, key: Seq<char>, rows: int) -> bool {
    &&& index.primary_key@ == key
    &&& index.indexes@.len() == rows
    &&& forall|i: int|
        0 <= i < rows ==> (#[trigger] index.indexes@[i]).id == i + 1 && index.indexes@[i].offset
            == i * 10 && index.indexes@[i].partition@ == key + ".odb.part1"@
}

/// Builds the index of a table of `rows` rows keyed by column `key`.
pub fn build_index(key: &String, rows: usize) -> (r: TableIndex)
    requires
        rows <= u64::MAX / 10,
    ensures
        index_for(r, key@, rows as int),
{
    let mut indexes: Vec<IndexEntry> = Vec::new();
    let mut i: usize = 0;
    while i < rows
        invariant
            i <= rows,
            rows <= u64::MAX / 10,
            indexes@.len() == i,
            forall|k: int|
                0 <= k < i ==> (#[trigger] indexes@[k]).id == k + 1 && indexes@[k].offset == k
                    * 10 && indexes@[k].partition@ == key@ + ".odb.part1"@,
        decreases rows - i,
    {
        let id: u64 = i as u64 + 1;
        let offset: u64 = i as u64 * 10;
        indexes.push(IndexEntry { id, offset, partition: column_file_name(key) });
        i = i + 1;
    }
    TableIndex { primary_key: key.clone(), indexes }
}

/// The pieces of `s` between newlines, as `str::split('\n')` gives them: an
/// empty string gives one empty piece, and a trailing newline a last empty one.
pub open spec fn split_spec(s: Seq<char>) -> Seq<Seq<char>>
    decreases s.len(),
{
    if s.len() == 0 {
        seq![Seq::empty()]
    } else {
        let p = split_spec(s.drop_last());
        if s.last() == '\n' {
            p.push(Seq::empty())
        } else {
            p.update(p.len() - 1, p.last().push(s.last()))
        }
    }
}

proof fn lemma_split_nonempty(s: Seq<char>)
    ensures
        split_spec(s).len() >= 1,
    decreases s.len(),
{
    if s.len() > 0 {
        lemma_split_nonempty(s.drop_last());
    }
}

/// Splits a column's text into its lines.
pub fn split_lines(s: &str) -> (r: Vec<String>)
    ensures
        texts(r@) == split_spec(s@),
{
    let cs = chars_of(s);
    let mut done: Vec<String> = Vec::new();
    let mut cur = String::new();
    let mut i: usize = 0;
    assert(texts(done@).push(cur@) =~= split_spec(cs@.take(0)));
    while i < cs.len()
        invariant
            i <= cs@.len(),
            cs@ == s@,
            texts(done@).push(cur@) == split_spec(cs@.take(i as int)),
        decreases cs.len() - i,
    {
        let c = cs[i];
        let ghost before = cs@.take(i as int);
        assert(cs@.take(i + 1).drop_last() =~= before);
        proof {
            lemma_split_nonempty(before);
        }
        if c == '\n' {
            done.push(cur);
            cur = String::new();
            assert(texts(done@).push(cur@) =~= split_spec(before).push(Seq::empty()));
        } else {
            push_char(&mut cur, c);
            assert(texts(done@).push(cur@) =~= split_spec(before).update(
                split_spec(before).len() - 1,
                split_spec(before).last().push(c),
            ));
        }
        i = i + 1;
    }
    assert(cs@.take(cs@.len() as int) =~= cs@);
    done.push(cur);
    assert(texts(done@) =~= split_spec(s@));
    done
}

/// Row `r` of a table read from its columns' lines: each column that has a
/// line `r` gives that line decoded; the others give nothing.
pub open spec fn row_spec(r: int, cols: Seq<Seq<Seq<char>>>, rm: Map<Seq<char>, char>) -> Seq<
    Seq<char>,
>
    decreases cols.len(),
{
    if cols.len() == 0 {
        Seq::empty()
    } else {
        let prev = row_spec(r, cols.drop_last(), rm);
        if r < cols.last().len() {
            prev.push(decode_spec(cols.last()[r], rm))
        } else {
            prev
        }
    }
}

/// The first `n` rows read from the columns' lines.
pub open spec fn rows_spec(n: int, cols: Seq<Seq<Seq<char>>>, rm: Map<Seq<char>, char>) -> Seq<
    Seq<Seq<char>>,
> {
    Seq::new(n as nat, |r: int| row_spec(r, cols, rm))
}

/// Rebuilds `record_count` rows from the columns' lines, decoding each cell.
pub fn reconstruct_rows(record_count: usize, columns: &Vec<Vec<String>>, reverse_map: &ReverseMap) -> (r:
    Vec<Vec<String>>)
    requires
        reverse_map.wf(),
    ensures
        grid(r@) == rows_spec(record_count as int, grid(columns@), reverse_map@),
{
    let mut out: Vec<Vec<String>> = Vec::new();
    let mut i: usize = 0;
    while i < record_count
        invariant
            i <= record_count,
            reverse_map.wf(),
            out@.len() == i,
            forall|k: int|
                0 <= k < i ==> texts((#[trigger] out@[k])@) == row_spec(
                    k,
                    grid(columns@),
                    reverse_map@,
                ),
        decreases record_count - i,
    {
        let mut row: Vec<String> = Vec::new();
        let mut j: usize = 0;
        while j < columns.len()
            invariant
                j <= columns@.len(),
                reverse_map.wf(),
                texts(row@) == row_spec(i as int, grid(columns@).take(j as int), reverse_map@),
            decreases columns.len() - j,
        {
            assert(grid(columns@).take(j + 1).drop_last() =~= grid(columns@).take(j as int));
            if i < columns[j].len() {
                row.push(decode_cell(columns[j][i].as_str(), reverse_map));
                assert(texts(row@) =~= row_spec(i as int, grid(columns@).take(j as int), reverse_map@).push(
                    decode_spec(grid(columns@)[j as int][i as int], reverse_map@),
                ));
            }
            j = j + 1;
        }
        assert(grid(columns@).take(columns@.len() as int) =~= grid(columns@));
        out.push(row);
        i = i + 1;
    }
    assert(grid(out@) =~= rows_spec(record_count as int, grid(columns@), reverse_map@));
    out
}

/// The parts with `sep` between each two.
pub open spec fn join_spec(parts: Seq<Seq<char>>, sep: Seq<char>) -> Seq<char>
    decreases parts.len(),
{
    if parts.len() == 0 {
        Seq::empty()
    } else if parts.len() == 1 {
        parts[0]
    } else {
        join_spec(parts.drop_last(), sep) + sep + parts.last()
    }
}

/// Joins the parts with `sep` between each two.
pub fn join_texts(parts: &Vec<String>, sep: &str) -> (r: String)
    ensures
        r@ == join_spec(texts(parts@), sep@),
{
    let mut out = String::new();
    let mut i: usize = 0;
    while i < parts.len()
        invariant
            i <= parts@.len(),
            out@ == join_spec(texts(parts@).take(i as int), sep@),
        decreases parts.len() - i,
    {
        assert(texts(parts@).take(i + 1).drop_last() =~= texts(parts@).take(i as int));
        if i > 0 {
            push_str(&mut out, sep);
        }
        push_str(&mut out, parts[i].as_str());
        i = i + 1;
    }
    assert(texts(parts@).take(parts@.len() as int) =~= texts(parts@));
    out
}

/// The text that shows a table: a header with the dataset's name and its
/// slots, the line of column names, and one indented line per row, cells
/// separated by commas.
pub open spec fn render_spec(name: Seq<char>, cols: Seq<Seq<char>>, rows: Seq<Seq<Seq<char>>>) -> Seq<
    char,
> {
    "dataset "@ + name + "("@ + join_spec(cols.map_values(|c: Seq<char>| "SLOT:"@ + c), ", "@)
        + ") {\n    "@ + join_spec(cols, ","@) + "\n"@ + join_spec(
        rows.map_values(|r: Seq<Seq<char>>| "    "@ + join_spec(r, ","@)),
        "\n"@,
    ) + "\n}"@
}

/// Each text with `prefix` in front.
fn prefixed(prefix: &str, parts: &Vec<String>) -> (r: Vec<String>)
    ensures
        texts(r@) == texts(parts@).map_values(|c: Seq<char>| prefix@ + c),
{
    let mut out: Vec<String> = Vec::new();
    let mut i: usize = 0;
    while i < parts.len()
        invariant
            i <= parts@.len(),
            out@.len() == i,
            forall|k: int| 0 <= k < i ==> (#[trigger] out@[k])@ == prefix@ + parts@[k]@,
        decreases parts.len() - i,
    {
        let mut s = String::new();
        push_str(&mut s, prefix);
        push_str(&mut s, parts[i].as_str());
        out.push(s);
        i = i + 1;
    }
    assert(texts(out@) =~= texts(parts@).map_values(|c: Seq<char>| prefix@ + c));
    out
}

/// Renders a table from its name, its column names and its rows.
pub fn render_table(name: &String, columns: &Vec<String>, rows: &Vec<Vec<String>>) -> (r: String)
    ensures
        r@ == render_spec(name@, texts(columns@), grid(rows@)),
{
    let slots = prefixed("SLOT:", columns);
    let mut lines: Vec<String> = Vec::new();
    let mut i: usize = 0;
    while i < rows.len()
        invariant
            i <= rows@.len(),
            lines@.len() == i,
            forall|k: int|
                0 <= k < i ==> (#[trigger] lines@[k])@ == "    "@ + join_spec(grid(rows@)[k], ","@),
        decreases rows.len() - i,
    {
        let mut line = String::new();
        push_str(&mut line, "    ");
        let joined = join_texts(&rows[i], ",");
        assert(texts(rows@[i as int]@) =~= grid(rows@)[i as int]);
        push_str(&mut line, joined.as_str());
        lines.push(line);
        i = i + 1;
    }
    assert(texts(lines@) =~= grid(rows@).map_values(
        |r: Seq<Seq<char>>| "    "@ + join_spec(r, ","@),
    ));
    let mut out = String::new();
    push_str(&mut out, "dataset ");
    push_str(&mut out, name.as_str());
    push_str(&mut out, "(");
    push_str(&mut out, join_texts(&slots, ", ").as_str());
    push_str(&mut out, ") {\n    ");
    push_str(&mut out, join_texts(columns, ",").as_str());
    push_str(&mut out, "\n");
    push_str(&mut out, join_texts(&lines, "\n").as_str());
    push_str(&mut out, "\n}");
    out
}

/// One column's data file: its name and its encrypted contents.
pub struct ColumnFile {
    pub file_name: String,
    pub blob: Vec<u8>,
}

/// Everything a write stores: the column files, and the schema, metadata and
/// index that go with them.
pub struct WritePlan {
    pub columns: Vec<ColumnFile>,
    pub schema: TableSchema,
    pub meta: TableMeta,
    pub index: TableIndex,
}

/// The rows with every cell encoded under the map.
pub open spec fn encoded_spec(rows: Seq<Vec<String>>, m: Map<char, Seq<char>>) -> Seq<
    Seq<Seq<char>>,
> {
    Seq::new(
        rows.len(),
        |i: int| Seq::new(rows[i]@.len(), |j: int| encode_spec(rows[i]@[j]@, m)),
    )
}

/// `plan` stores the request for the token: one file per column, in column
/// order, holding the encrypted text of the encoded column; and the schema,
/// metadata and index of the table, written at `now`.
pub open spec fn plan_for(
    plan: WritePlan,
    token: Seq<char>,
    req: TranslateRequest,
    m: Map<char, Seq<char>>,
    now: Seq<char>,
) -> bool {
    &&& plan.columns@.len() == req.slot@.len()
    &&& forall|j: int|
        0 <= j < req.slot@.len() ==> (#[trigger] plan.columns@[j]).file_name@ == req.slot@[j]@
            + ".odb.part1"@ && is_envelope(
            plan.columns@[j].blob@,
            encode_utf8(column_text_spec(encoded_spec(req.data@, m), j)),
            token,
        )
    &&& schema_for(plan.schema, texts(req.slot@))
    &&& meta_for(plan.meta, req.dataset@, req.data@.len() as int, now)
    &&& index_for(plan.index, req.slot@[0]@, req.data@.len() as int)
}

/// What a write of `req` for `token` at `now` gives: a malformed request is
/// refused; otherwise the plan, unless sealing a column failed.
pub open spec fn write_outcome(
    r: Result<WritePlan, CoreError>,
    token: Seq<char>,
    req: TranslateRequest,
    m: Map<char, Seq<char>>,
    now: Seq<char>,
) -> bool {
    if !well_formed(req.slot@.len() as int, req.data@) {
        r == Err::<WritePlan, CoreError>(CoreError::MalformedRequest)
    } else {
        match r {
            Ok(plan) => plan_for(plan, token, req, m, now),
            Err(e) => e == CoreError::EncryptionError,
        }
    }
}

/// Validates a write request, encodes its cells, encrypts each column's text
/// under the token's key, and builds the schema, metadata and index.
pub fn prepare_write(token: &str, req: &TranslateRequest, lang_map: &LangMap, now: String) -> (r:
    Result<WritePlan, CoreError>)
    requires
        lang_map.wf(),
        well_formed(req.slot@.len() as int, req.data@) ==> req.data@.len() <= u64::MAX / 10,
    ensures
        write_outcome(r, token@, *req, lang_map@, now@),
{
    match validate_request(req) {
        Err(e) => {
            return Err(e);
        },
        Ok(()) => {},
    }
    let encoded = encode_rows(&req.data, lang_map);
    assert(grid(encoded@) =~= encoded_spec(req.data@, lang_map@)) by {
        assert forall|i: int| 0 <= i < encoded@.len() implies #[trigger] grid(encoded@)[i]
            =~= encoded_spec(req.data@, lang_map@)[i] by {
            assert(encoded@[i]@.len() == req.data@[i]@.len());
        }
    }
    let mut columns: Vec<ColumnFile> = Vec::new();
    let mut j: usize = 0;
    while j < req.slot.len()
        invariant
            j <= req.slot@.len(),
            well_formed(req.slot@.len() as int, req.data@),
            encoded@.len() == req.data@.len(),
            forall|i: int|
                0 <= i < req.data@.len() ==> (#[trigger] encoded@[i])@.len() == req.data@[i]@.len(),
            grid(encoded@) == encoded_spec(req.data@, lang_map@),
            columns@.len() == j,
            forall|k: int|
                0 <= k < j ==> (#[trigger] columns@[k]).file_name@ == req.slot@[k]@ + ".odb.part1"@
                    && is_envelope(
                    columns@[k].blob@,
                    encode_utf8(column_text_spec(encoded_spec(req.data@, lang_map@), k)),
                    token@,
                ),
        decreases req.slot.len() - j,
    {
        assert forall|i: int| 0 <= i < encoded@.len() implies j < (#[trigger] encoded@[i])@.len() by {
            assert(req.data@[i]@.len() == req.slot@.len());
        }
        let text = column_text(&encoded, j);
        let blob = match encrypt_data(text.as_str(), token) {
            Ok(b) => b,
            Err(e) => {
                return Err(e);
            },
        };
        columns.push(ColumnFile { file_name: column_file_name(&req.slot[j]), blob });
        j = j + 1;
    }
    let schema = build_schema(&req.slot);
    let meta = build_meta(&req.dataset, req.data.len(), now);
    let index = build_index(&req.slot[0], req.data.len());
    Ok(WritePlan { columns, schema, meta, index })
}

/// Relies on std's `SystemTime::now` and `duration_since(UNIX_EPOCH)`, and
/// chrono's `DateTime::from_timestamp` and `to_rfc3339`: the current UTC time
/// as RFC 3339 text, or nothing where the clock reads before 1970 or beyond
/// what chrono can represent.
#[verifier::external_body]
fn utc_now_rfc3339() -> (r: Option<String>) {
    let since = std::time::SystemTime::now().duration_since(std::time::UNIX_EPOCH).ok()?;
    let secs = i64::try_from(since.as_secs()).ok()?;
    let now = chrono::DateTime::from_timestamp(secs, since.subsec_nanos())?;
    Some(now.to_rfc3339())
}

/// Prepares a write stamped with the current UTC time. A malformed request is
/// refused before the clock is read; a clock that cannot be read gives
/// `ClockUnavailable`.
pub fn plan_write(token: &str, req: &TranslateRequest, lang_map: &LangMap) -> (r: Result<
    WritePlan,
    CoreError,
>)
    requires
        lang_map.wf(),
        well_formed(req.slot@.len() as int, req.data@) ==> req.data@.len() <= u64::MAX / 10,
    ensures
        !well_formed(req.slot@.len() as int, req.data@) ==> r == Err::<WritePlan, CoreError>(
            CoreError::MalformedRequest,
        ),
        r == Err::<WritePlan, CoreError>(CoreError::ClockUnavailable) || exists|now: Seq<char>|
            write_outcome(r, token@, *req, lang_map@, now),
{
    match validate_request(req) {
        Err(e) => {
            assert(write_outcome(Err(e), token@, *req, lang_map@, Seq::empty()));
            return Err(e);
        },
        Ok(()) => {},
    }
    match utc_now_rfc3339() {
        Some(now) => prepare_write(token, req, lang_map, now),
        None => Err(CoreError::ClockUnavailable),
    }
}

/// The column names of a schema.
pub open spec fn names_of(schema: TableSchema) -> Seq<Seq<char>> {
    schema.columns@.map_values(|c: ColumnSchema| c.name@)
}

/// The lines of each column, once every blob has been decrypted.
pub open spec fn column_lines(blobs: Seq<Option<Vec<u8>>>, token: Seq<char>) -> Seq<Seq<Seq<char>>> {
    blobs.map_values(|b: Option<Vec<u8>>| split_spec(file_text(b, token)->Ok_0))
}

/// What a column file gives: `FileNotFound` where it is absent, else what
/// decrypting its contents gives.
pub open spec fn file_text(b: Option<Vec<u8>>, token: Seq<char>) -> Result<Seq<char>, CoreError> {
    match b {
        Some(v) => decrypt_spec(v@, token),
        None => Err(CoreError::FileNotFound),
    }
}

/// The column file is present and is an envelope of the UTF-8 bytes of `t`.
pub open spec fn sealed_text(b: Option<Vec<u8>>, t: Seq<char>, token: Seq<char>) -> bool {
    b matches Some(v) && is_envelope(v@, encode_utf8(t), token)
}

/// What reading a table gives: the first blob that does not decrypt decides
/// the error; else the rendered table.
pub open spec fn read_outcome(
    r: Result<String, CoreError>,
    token: Seq<char>,
    meta: TableMeta,
    schema: TableSchema,
    blobs: Seq<Option<Vec<u8>>>,
    rm: Map<Seq<char>, char>,
) -> bool {
    match r {
        Ok(s) => (forall|j: int| 0 <= j < blobs.len() ==> #[trigger] file_text(blobs[j], token) is Ok)
            && s@ == render_spec(
            meta.table_name@,
            names_of(schema),
            rows_spec(meta.record_count as int, column_lines(blobs, token), rm),
        ),
        Err(e) => exists|j: int|
            0 <= j < blobs.len() && #[trigger] file_text(blobs[j], token) == Err::<
                Seq<char>,
                CoreError,
            >(e) && forall|k: int| 0 <= k < j ==> #[trigger] file_text(blobs[k], token) is Ok,
    }
}

/// The lines of each text.
pub open spec fn lines_of(ts: Seq<Seq<char>>) -> Seq<Seq<Seq<char>>> {
    ts.map_values(|t: Seq<char>| split_spec(t))
}

/// When each blob is an envelope of the UTF-8 bytes of the matching text of
/// `ts`, the read succeeds with the table rendered from those texts' lines.
pub open spec fn read_of_texts(
    r: Result<String, CoreError>,
    token: Seq<char>,
    meta: TableMeta,
    schema: TableSchema,
    blobs: Seq<Option<Vec<u8>>>,
    ts: Seq<Seq<char>>,
    rm: Map<Seq<char>, char>,
) -> bool {
    (ts.len() == blobs.len() && forall|j: int|
        0 <= j < blobs.len() ==> #[trigger] sealed_text(blobs[j], ts[j], token))
        ==> (r matches Ok(s) && s@ == render_spec(
        meta.table_name@,
        names_of(schema),
        rows_spec(meta.record_count as int, lines_of(ts), rm),
    ))
}

/// Decrypts each column blob (one per schema column, in order), splits it
/// into lines, decodes the first `record_count` rows and renders the table.
pub fn read_table(
    token: &str,
    meta: &TableMeta,
    schema: &TableSchema,
    column_blobs: &Vec<Option<Vec<u8>>>,
    reverse_map: &ReverseMap,
) -> (r: Result<String, CoreError>)
    requires
        reverse_map.wf(),
    ensures
        read_outcome(r, token@, *meta, *schema, column_blobs@, reverse_map@),
        forall|ts: Seq<Seq<char>>|
            #[trigger] read_of_texts(r, token@, *meta, *schema, column_blobs@, ts, reverse_map@),
{
    let mut columns: Vec<Vec<String>> = Vec::new();
    let mut j: usize = 0;
    while j < column_blobs.len()
        invariant
            j <= column_blobs@.len(),
            columns@.len() == j,
            forall|k: int| 0 <= k < j ==> #[trigger] file_text(column_blobs@[k], token@) is Ok,
            forall|k: int, t: Seq<char>|
                0 <= k < j && #[trigger] sealed_text(column_blobs@[k], t, token@)
                    ==> file_text(column_blobs@[k], token@) == Ok::<Seq<char>, CoreError>(t),
            forall|k: int|
                0 <= k < j ==> texts((#[trigger] columns@[k])@) == column_lines(
                    column_blobs@,
                    token@,
                )[k],
        decreases column_blobs.len() - j,
    {
        let opened = match &column_blobs[j] {
            Some(blob) => decrypt_data(blob.as_slice(), token),
            None => Err(CoreError::FileNotFound),
        };
        match opened {
            Ok(text) => {
                columns.push(split_lines(text.as_str()));
            },
            Err(e) => {
                proof {
                    assert forall|ts: Seq<Seq<char>>|
                        #[trigger] read_of_texts(
                            Err(e),
                            token@,
                            *meta,
                            *schema,
                            column_blobs@,
                            ts,
                            reverse_map@,
                        ) by {
                        if ts.len() == column_blobs@.len() {
                            assert(!sealed_text(column_blobs@[j as int], ts[j as int], token@));
                        }
                    }
                }
                return Err(e);
            },
        }
        j = j + 1;
    }
    assert(grid(columns@) =~= column_lines(column_blobs@, token@));
    let rows = reconstruct_rows(meta.record_count, &columns, reverse_map);
    let mut names: Vec<String> = Vec::new();
    let mut k: usize = 0;
    while k < schema.columns.len()
        invariant
            k <= schema.columns@.len(),
            names@.len() == k,
            forall|l: int| 0 <= l < k ==> (#[trigger] names@[l])@ == schema.columns@[l].name@,
        decreases schema.columns.len() - k,
    {
        names.push(schema.columns[k].name.clone());
        k = k + 1;
    }
    assert(texts(names@) =~= names_of(*schema));
    let out = render_table(&meta.table_name, &names, &rows);
    proof {
        assert forall|ts: Seq<Seq<char>>|
            #[trigger] read_of_texts(
                Ok(out),
                token@,
                *meta,
                *schema,
                column_blobs@,
                ts,
                reverse_map@,
            ) by {
            if ts.len() == column_blobs@.len() && forall|j: int|
                0 <= j < column_blobs@.len() ==> #[trigger] sealed_text(column_blobs@[j], ts[j], token@) {
                assert forall|k: int| 0 <= k < ts.len() implies #[trigger] lines_of(ts)[k] == column_lines(column_blobs@, token@)[k] by {
                    assert(sealed_text(column_blobs@[k], ts[k], token@));
                }
                assert(lines_of(ts) =~= column_lines(
                    column_blobs@,
                    token@,
                ));
            }
        }
    }
    Ok(out)
}

/// `s` holds no newline.
pub open spec fn no_newline(s: Seq<char>) -> bool {
    forall|i: int| 0 <= i < s.len() ==> s[i] != '\n'
}

proof fn lemma_encode_no_newline(s: Seq<char>, m: Map<char, Seq<char>>)
    requires
        forall|i: int| 0 <= i < s.len() ==> m.contains_key(#[trigger] s[i]),
        forall|c: char| #[trigger] m.contains_key(c) ==> no_newline(m[c]),
    ensures
        no_newline(encode_spec(s, m)),
    decreases s.len(),
{
    if s.len() > 0 {
        let dl = s.drop_last();
        assert forall|i: int| 0 <= i < dl.len() implies m.contains_key(#[trigger] dl[i]) by {
            assert(dl[i] == s[i]);
        }
        lemma_encode_no_newline(dl, m);
        assert(m.contains_key(s[s.len() - 1]));
        let e = encode_spec(s, m);
        let a = encode_spec(dl, m);
        let b = m[s.last()];
        assert forall|i: int| 0 <= i < e.len() implies e[i] != '\n' by {
            if i < a.len() {
                assert(e[i] == a[i]);
            } else {
                assert(e[i] == b[i - a.len()]);
            }
        }
    }
}

proof fn lemma_split_plain(x: Seq<char>, y: Seq<char>)
    requires
        no_newline(y),
    ensures
        split_spec(x + y) == split_spec(x).update(
            split_spec(x).len() - 1,
            split_spec(x).last() + y,
        ),
    decreases y.len(),
{
    lemma_split_nonempty(x);
    let p = split_spec(x);
    if y.len() == 0 {
        assert(x + y =~= x);
        assert(p.update(p.len() - 1, p.last() + y) =~= p);
    } else {
        let yd = y.drop_last();
        lemma_split_plain(x, yd);
        assert((x + y).drop_last() =~= x + yd);
        assert((x + y).last() == y.last());
        assert(y[y.len() - 1] != '\n');
        let q = split_spec(x + yd);
        assert(q.len() == p.len());
        assert(q.update(q.len() - 1, q.last().push(y.last())) =~= p.update(
            p.len() - 1,
            p.last() + y,
        )) by {
            assert(q.last() == p.last() + yd);
            assert((p.last() + yd).push(y.last()) =~= p.last() + y);
        }
    }
}

/// Column `col` of each row.
pub open spec fn column_of(rows: Seq<Seq<Seq<char>>>, col: int) -> Seq<Seq<char>> {
    Seq::new(rows.len(), |i: int| rows[i][col])
}

proof fn lemma_split_column(rows: Seq<Seq<Seq<char>>>, col: int)
    requires
        forall|i: int| 0 <= i < rows.len() ==> col < (#[trigger] rows[i]).len(),
        forall|i: int| 0 <= i < rows.len() ==> no_newline(#[trigger] rows[i][col]),
        0 <= col,
    ensures
        split_spec(column_text_spec(rows, col)) == column_of(rows, col).push(Seq::empty()),
    decreases rows.len(),
{
    if rows.len() == 0 {
        assert(column_of(rows, col).push(Seq::empty()) =~= seq![Seq::<char>::empty()]);
    } else {
        let dl = rows.drop_last();
        let cell = rows.last()[col];
        assert(no_newline(rows[rows.len() - 1][col]));
        lemma_split_column(dl, col);
        let front = column_text_spec(dl, col) + cell;
        lemma_split_plain(column_text_spec(dl, col), cell);
        assert(column_text_spec(rows, col) =~= front.push('\n'));
        assert(front.push('\n').drop_last() =~= front);
        assert(split_spec(front) =~= column_of(dl, col).push(cell));
        assert(column_of(rows, col) =~= column_of(dl, col).push(cell));
    }
}

proof fn lemma_row_full(r: int, cols: Seq<Seq<Seq<char>>>, rm: Map<Seq<char>, char>)
    requires
        forall|j: int| 0 <= j < cols.len() ==> r < (#[trigger] cols[j]).len(),
    ensures
        row_spec(r, cols, rm) == Seq::new(cols.len(), |j: int| decode_spec(cols[j][r], rm)),
    decreases cols.len(),
{
    if cols.len() > 0 {
        lemma_row_full(r, cols.drop_last(), rm);
        assert(r < cols[cols.len() - 1].len());
        assert(row_spec(r, cols, rm) =~= Seq::new(
            cols.len(),
            |j: int| decode_spec(cols[j][r], rm),
        ));
    } else {
        assert(row_spec(r, cols, rm) =~= Seq::new(
            cols.len(),
            |j: int| decode_spec(cols[j][r], rm),
        ));
    }
}

/// Under a prefix-free map whose replacements hold no newline, and a reverse
/// table of it: when every character of every cell of a well-formed request is
/// mapped, splitting each encoded column text into lines and rebuilding the
/// rows gives back the rows written, in order.
pub proof fn lemma_write_read_rows(
    data: Seq<Vec<String>>,
    n_cols: int,
    m: Map<char, Seq<char>>,
    rm: Map<Seq<char>, char>,
)
    requires
        well_formed(n_cols, data),
        prefix_free(m),
        is_reverse(rm, m),
        forall|c: char| #[trigger] m.contains_key(c) ==> no_newline(m[c]),
        forall|i: int, j: int, k: int|
            0 <= i < data.len() && 0 <= j < data[i]@.len() && 0 <= k < data[i]@[j]@.len()
                ==> m.contains_key(#[trigger] data[i]@[j]@[k]),
    ensures
        rows_spec(
            data.len() as int,
            Seq::new(
                n_cols as nat,
                |j: int| split_spec(column_text_spec(encoded_spec(data, m), j)),
            ),
            rm,
        ) == grid(data),
{
    let enc = encoded_spec(data, m);
    let cols = Seq::new(n_cols as nat, |j: int| split_spec(column_text_spec(enc, j)));
    assert forall|i: int, j: int|
        0 <= i < data.len() && 0 <= j < n_cols implies no_newline(#[trigger] enc[i][j])
        && decode_spec(enc[i][j], rm) == data[i]@[j]@ by {
        assert(data[i]@.len() == n_cols);
        let cell = data[i]@[j]@;
        assert forall|k: int| 0 <= k < cell.len() implies m.contains_key(#[trigger] cell[k]) by {
            assert(m.contains_key(data[i]@[j]@[k]));
        }
        lemma_encode_no_newline(cell, m);
        lemma_round_trip(cell, m, rm);
    }
    assert forall|j: int| 0 <= j < n_cols implies #[trigger] cols[j] == column_of(enc, j).push(
        Seq::empty(),
    ) by {
        assert forall|i: int| 0 <= i < enc.len() implies j < (#[trigger] enc[i]).len() by {
            assert(data[i]@.len() == n_cols);
        }
        assert forall|i: int| 0 <= i < enc.len() implies no_newline(#[trigger] enc[i][j]) by {
            assert(no_newline(enc[i][j]));
        }
        lemma_split_column(enc, j);
    }
    assert forall|r: int| 0 <= r < data.len() implies #[trigger] rows_spec(
        data.len() as int,
        cols,
        rm,
    )[r] == grid(data)[r] by {
        assert forall|j: int| 0 <= j < cols.len() implies r < (#[trigger] cols[j]).len() by {
            assert(cols[j] == column_of(enc, j).push(Seq::empty()));
        }
        lemma_row_full(r, cols, rm);
        assert(data[r]@.len() == n_cols);
        assert forall|j: int| 0 <= j < n_cols implies decode_spec(#[trigger] cols[j][r], rm)
            == grid(data)[r][j] by {
            assert(cols[j] == column_of(enc, j).push(Seq::empty()));
            assert(cols[j][r] == enc[r][j]);
            assert(no_newline(enc[r][j]) && decode_spec(enc[r][j], rm) == data[r]@[j]@);
        }
        assert(row_spec(r, cols, rm) =~= grid(data)[r]);
    }
    assert(rows_spec(data.len() as int, cols, rm) =~= grid(data));
}


/// The blobs of a plan's column files, in order.
pub open spec fn blobs_of(plan: WritePlan) -> Seq<Option<Vec<u8>>> {
    plan.columns@.map_values(|c: ColumnFile| Some(c.blob))
}

/// Reading back what a write stored gives the request's table: under a
/// prefix-free map whose replacements hold no newline, and a reverse table of
/// it, when every character of every cell is mapped, the read of the stored
/// column blobs with the stored metadata and schema renders the dataset name,
/// the column names, and the rows written, in order.
pub proof fn lemma_write_then_read(
    plan: WritePlan,
    token: Seq<char>,
    req: TranslateRequest,
    m: Map<char, Seq<char>>,
    rm: Map<Seq<char>, char>,
    now: Seq<char>,
    r: Result<String, CoreError>,
)
    requires
        plan_for(plan, token, req, m, now),
        well_formed(req.slot@.len() as int, req.data@),
        prefix_free(m),
        is_reverse(rm, m),
        forall|c: char| #[trigger] m.contains_key(c) ==> no_newline(m[c]),
        forall|i: int, j: int, k: int|
            0 <= i < req.data@.len() && 0 <= j < req.data@[i]@.len() && 0 <= k
                < req.data@[i]@[j]@.len() ==> m.contains_key(#[trigger] req.data@[i]@[j]@[k]),
        forall|ts: Seq<Seq<char>>|
            #[trigger] read_of_texts(
                r,
                token,
                plan.meta,
                plan.schema,
                blobs_of(plan),
                ts,
                rm,
            ),
    ensures
        r matches Ok(s) && s@ == render_spec(req.dataset@, texts(req.slot@), grid(req.data@)),
{
    let n_cols = req.slot@.len() as int;
    let enc = encoded_spec(req.data@, m);
    let ts = Seq::new(n_cols as nat, |j: int| column_text_spec(enc, j));
    let blobs = blobs_of(plan);
    assert forall|j: int| 0 <= j < blobs.len() implies #[trigger] sealed_text(blobs[j], ts[j], token) by {
        assert(Some(plan.columns@[j].blob) == blobs[j]);
    }
    assert(read_of_texts(r, token, plan.meta, plan.schema, blobs, ts, rm));
    lemma_write_read_rows(req.data@, n_cols, m, rm);
    assert(lines_of(ts) =~= Seq::new(
        n_cols as nat,
        |j: int| split_spec(column_text_spec(enc, j)),
    ));
    assert(names_of(plan.schema) =~= texts(req.slot@));
}

} // verus!

use crate::error::{Fault, Field, ParseError};
use crate::food::{fits, is_ledger, records, Food, Record};
use crate::foods::Foods;
use crate::ledger::{is_listing, lemma_listing, lemma_listing_exists, listing};
use crate::number::{
    is_digit, lemma_parse_rendered, lemma_rendered_int_chars, parse_int, parsed_int, render_int,
    rendered_int, IntFault,
};
use crate::text::{
    blank, is_blank, lemma_pieces_cut, lemma_pieces_len, lemma_pieces_whole, pieces, same_text,
    split, texts,
};
use vstd::prelude::*;
use vstd::string::StringExecFns;

verus! {

/// The first line of the data file.
pub open spec fn header() -> Seq<char> {
    "id,name,stock,price"@
}

/// The reading of one line of the data file. The line is cut at its first three
/// commas into the id, the name, the stock and the price, which takes the rest
/// of the line. The fields are read in that order, and the first one that is
/// absent, blank where it is the name, or no integer where it is a number
/// decides the error.
pub open spec fn parsed_line(line: Seq<char>) -> Result<Record, Fault> {
    let fields = pieces(line, ',', Some(4nat));
    match parsed_int(fields[0]) {
        Err(fault) => Err(Fault::InvalidId(Field::Id, fault)),
        Ok(id) => if fields.len() < 2 || blank(fields[1]) {
            Err(Fault::MissingField(Field::Name))
        } else if fields.len() < 3 {
            Err(Fault::MissingField(Field::Stock))
        } else {
            match parsed_int(fields[2]) {
                Err(fault) => Err(Fault::InvalidId(Field::Stock, fault)),
                Ok(stock) => if fields.len() < 4 {
                    Err(Fault::MissingField(Field::Price))
                } else {
                    match parsed_int(fields[3]) {
                        Err(fault) => Err(Fault::InvalidId(Field::Price, fault)),
                        Ok(price) => Ok(Record { id, name: fields[1], stock, price }),
                    }
                },
            }
        },
    }
}

/// The value of an item or the error that stands in its place.
pub open spec fn food_or_fault(r: Result<Food, ParseError>) -> Result<Record, Fault> {
    match r {
        Ok(food) => Ok(food@),
        Err(e) => Err(e@),
    }
}

/// Reads one number field of a line.
fn parse_field(field: Field, s: &str) -> (r: Result<i64, ParseError>)
    ensures
        match r {
            Ok(v) => parsed_int(s@) == Ok::<int, IntFault>(v as int),
            Err(e) => parsed_int(s@) is Err && e@ == Fault::InvalidId(field, parsed_int(s@)->Err_0),
        },
{
    match parse_int(s) {
        Ok(v) => Ok(v),
        Err(fault) => Err(ParseError::InvalidId(field, fault)),
    }
}

/// Reads one line of the data file.
pub fn parse_food(food: &str) -> (r: Result<Food, ParseError>)
    ensures
        food_or_fault(r) == parsed_line(food@),
{
    let fields = split(food, ',', Some(4));
    let ghost parts = pieces(food@, ',', Some(4nat));
    assert(parts.len() == fields.len());
    assert forall|i: int| 0 <= i < fields.len() implies (#[trigger] fields[i])@ == parts[i] by {
        assert(texts(fields@)[i] == fields[i]@);
    }
    assert(fields.len() >= 1) by {
        lemma_pieces_len(food@, ',', Some(4nat));
    }
    let id = match parse_field(Field::Id, fields[0].as_str()) {
        Ok(id) => id,
        Err(e) => { return Err(e); },
    };
    if fields.len() < 2 || is_blank(fields[1].as_str()) {
        return Err(ParseError::MissingField(Field::Name));
    }
    if fields.len() < 3 {
        return Err(ParseError::MissingField(Field::Stock));
    }
    let stock = match parse_field(Field::Stock, fields[2].as_str()) {
        Ok(stock) => stock,
        Err(e) => { return Err(e); },
    };
    if fields.len() < 4 {
        return Err(ParseError::MissingField(Field::Price));
    }
    let price = match parse_field(Field::Price, fields[3].as_str()) {
        Ok(price) => price,
        Err(e) => { return Err(e); },
    };
    Ok(Food { id, name: fields[1].clone(), stock, price })
}

/// A line of the data file that could not be read: its number, counted from 1,
/// why it was passed over, and the line itself.
#[derive(Debug, PartialEq, Eq)]
pub struct Skipped {
    pub line: usize,
    pub error: ParseError,
    pub text: String,
}

/// The mathematical value of a `Skipped`.
pub struct Skip {
    pub line: int,
    pub fault: Fault,
    pub text: Seq<char>,
}

impl View for Skipped {
    type V = Skip;

    open spec fn view(&self) -> Skip {
        Skip { line: self.line as int, fault: self.error@, text: self.text@ }
    }
}

/// The values of a sequence of `Skipped`.
pub open spec fn skips(v: Seq<Skipped>) -> Seq<Skip> {
    Seq::new(v.len(), |i: int| v[i]@)
}

/// What reading the data file gives: the ledger, and the lines passed over.
#[derive(Debug)]
pub struct Decoded {
    pub foods: Foods,
    pub skipped: Vec<Skipped>,
}

/// The lines of a text: its pieces between line feeds.
pub open spec fn lines_of(text: Seq<char>) -> Seq<Seq<char>> {
    pieces(text, '\n', None)
}

/// Whether line `i` is read as a record: it is not empty, and it is not the
/// header in the first place.
pub open spec fn is_entry(lines: Seq<Seq<char>>, i: int) -> bool {
    lines[i].len() > 0 && !(i == 0 && lines[0] == header())
}

/// The ledger that the first `n` lines give: each line that reads as a record
/// is put under its id, a later one in place of an earlier one.
pub open spec fn ledger_of(lines: Seq<Seq<char>>, n: int) -> Map<int, Record>
    decreases n,
{
    if n <= 0 {
        Map::empty()
    } else {
        let before = ledger_of(lines, n - 1);
        if is_entry(lines, n - 1) {
            match parsed_line(lines[n - 1]) {
                Ok(r) => before.insert(r.id, r),
                Err(_) => before,
            }
        } else {
            before
        }
    }
}

/// The lines among the first `n` that do not read as a record, in their order.
pub open spec fn skips_of(lines: Seq<Seq<char>>, n: int) -> Seq<Skip>
    decreases n,
{
    if n <= 0 {
        Seq::empty()
    } else {
        let before = skips_of(lines, n - 1);
        if is_entry(lines, n - 1) {
            match parsed_line(lines[n - 1]) {
                Ok(_) => before,
                Err(fault) => before.push(Skip { line: n, fault, text: lines[n - 1] }),
            }
        } else {
            before
        }
    }
}

/// The ledger that a text of the data file stands for.
pub open spec fn decoded(text: Seq<char>) -> Map<int, Record> {
    ledger_of(lines_of(text), lines_of(text).len() as int)
}

/// The lines of a text that are passed over when it is read.
pub open spec fn skipped(text: Seq<char>) -> Seq<Skip> {
    skips_of(lines_of(text), lines_of(text).len() as int)
}

/// A line that reads as a record gives numbers that fit in 64 bits.
pub proof fn lemma_parsed_line_fits(line: Seq<char>)
    ensures
        parsed_line(line) matches Ok(r) ==> fits(r),
{
}

/// Whatever the lines hold, what is read from them is a ledger.
pub proof fn lemma_ledger_of_is_ledger(lines: Seq<Seq<char>>, n: int)
    ensures
        is_ledger(ledger_of(lines, n)),
    decreases n,
{
    if n > 0 {
        lemma_ledger_of_is_ledger(lines, n - 1);
        lemma_parsed_line_fits(lines[n - 1]);
    }
}

/// Whatever the text holds, what is read from it is a ledger.
pub proof fn lemma_decoded_is_ledger(text: Seq<char>)
    ensures
        is_ledger(decoded(text)),
{
    lemma_ledger_of_is_ledger(lines_of(text), lines_of(text).len() as int);
}

/// Reads the data file. No line makes the reading fail: a line that does not
/// read as a record is passed over, and listed in the result where `verbose` is
/// set.
pub fn parse_foods(foods: String, verbose: bool) -> (r: Decoded)
    ensures
        r.foods@ == decoded(foods@),
        skips(r.skipped@) == (if verbose {
            skipped(foods@)
        } else {
            Seq::<Skip>::empty()
        }),
{
    let lines = split(foods.as_str(), '\n', None);
    let ghost all = lines_of(foods@);
    let mut fods = Foods::new();
    let mut skipped: Vec<Skipped> = Vec::new();
    let mut i: usize = 0;
    assert(all.len() == lines.len());
    assert forall|j: int| 0 <= j < lines.len() implies (#[trigger] lines[j])@ == all[j] by {
        assert(texts(lines@)[j] == lines[j]@);
    }
    assert(skips(skipped@) =~= Seq::<Skip>::empty());
    while i < lines.len()
        invariant
            i <= lines.len(),
            all.len() == lines.len(),
            forall|j: int| 0 <= j < lines.len() ==> (#[trigger] lines[j])@ == all[j],
            fods@ == ledger_of(all, i as int),
            skips(skipped@) == (if verbose {
                skips_of(all, i as int)
            } else {
                Seq::<Skip>::empty()
            }),
        decreases lines.len() - i,
    {
        let line = lines[i].as_str();
        if !line.is_empty() && !(i == 0 && same_text(line, "id,name,stock,price")) {
            match parse_food(line) {
                Ok(fod) => {
                    fods.add(fod);
                },
                Err(e) => {
                    if verbose {
                        let ghost before = skipped@;
                        let skip = Skipped { line: i + 1, error: e, text: lines[i].clone() };
                        skipped.push(skip);
                        assert(skips(skipped@) =~= skips(before).push(skip@));
                    }
                },
            }
        }
        i = i + 1;
    }
    Decoded { foods: fods, skipped }
}

/// One record as a line of the data file, without the line feed.
pub open spec fn rendered_line(r: Record) -> Seq<char> {
    rendered_int(r.id) + seq![','] + r.name + seq![','] + rendered_int(r.stock) + seq![',']
        + rendered_int(r.price)
}

/// The lines one behind another, a line feed behind each.
pub open spec fn joined(lines: Seq<Seq<char>>) -> Seq<char>
    decreases lines.len(),
{
    if lines.len() == 0 {
        Seq::empty()
    } else {
        joined(lines.drop_last()) + lines.last() + seq!['\n']
    }
}

/// The lines of the data file for the given records: the header, then one line
/// for each record.
pub open spec fn encoded_lines(s: Seq<Record>) -> Seq<Seq<char>> {
    seq![header()] + Seq::new(s.len(), |i: int| rendered_line(s[i]))
}

/// The text of the data file for the given records.
pub open spec fn encoded(s: Seq<Record>) -> Seq<char> {
    joined(encoded_lines(s))
}

/// Writes one item as a line of the data file, without the line feed.
pub fn render_food(food: &Food) -> (line: String)
    ensures
        line@ == rendered_line(food@),
{
    let mut line = render_int(food.id);
    line.push(',');
    line.append(food.name.as_str());
    line.push(',');
    line.append(render_int(food.stock).as_str());
    line.push(',');
    line.append(render_int(food.price).as_str());
    assert(line@ =~= rendered_line(food@));
    line
}

/// Writes the text of the data file for the given items, in their order.
pub fn encode_list(foods: &Vec<Food>) -> (text: String)
    ensures
        text@ == encoded(records(foods@)),
{
    let ghost lines = encoded_lines(records(foods@));
    let mut text = "id,name,stock,price".to_owned();
    text.push('\n');
    proof {
        assert(lines.take(1).drop_last() =~= Seq::<Seq<char>>::empty());
        assert(joined(Seq::<Seq<char>>::empty()) =~= Seq::<char>::empty());
        assert(lines.take(1).last() == header());
        assert(joined(lines.take(1)) =~= header() + seq!['\n']);
    }
    let mut i: usize = 0;
    while i < foods.len()
        invariant
            i <= foods.len(),
            lines == encoded_lines(records(foods@)),
            text@ == joined(lines.take(i + 1)),
        decreases foods.len() - i,
    {
        let line = render_food(&foods[i]);
        text.append(line.as_str());
        text.push('\n');
        proof {
            assert(lines.take(i + 2).drop_last() =~= lines.take(i + 1));
            assert(lines.take(i + 2).last() == rendered_line(foods[i as int]@));
        }
        i = i + 1;
    }
    assert(lines.take(foods.len() + 1) =~= lines);
    text
}

/// Writes the text of the data file for the ledger: the header, then the items
/// by ascending id.
pub fn encode(foods: Foods) -> (text: String)
    ensures
        text@ == encoded(listing(foods@)),
{
    let ghost m = foods@;
    let list = foods.into_vec();
    proof {
        lemma_listing(records(list@), m);
    }
    encode_list(&list)
}

/// A name that a line of the data file can carry: it is not blank, and it
/// holds neither a comma nor a line feed.
pub open spec fn storable(name: Seq<char>) -> bool {
    &&& !blank(name)
    &&& forall|i: int| 0 <= i < name.len() ==> name[i] != ',' && name[i] != '\n'
}

/// The decimal form of an integer holds neither a comma nor a line feed.
proof fn lemma_rendered_int_plain(n: int)
    ensures
        forall|i: int|
            0 <= i < rendered_int(n).len() ==> rendered_int(n)[i] != ',' && rendered_int(n)[i]
                != '\n',
{
    lemma_rendered_int_chars(n);
    assert forall|i: int| 0 <= i < rendered_int(n).len() implies rendered_int(n)[i] != ','
        && rendered_int(n)[i] != '\n' by {
        assert(is_digit(rendered_int(n)[i]) || rendered_int(n)[i] == '-');
    }
}

/// The line written for a record reads as that record, where its numbers fit in
/// 64 bits and its name is storable. The line is not empty and holds no line
/// feed.
pub proof fn lemma_line_round_trip(r: Record)
    requires
        fits(r),
        storable(r.name),
    ensures
        parsed_line(rendered_line(r)) == Ok::<Record, Fault>(r),
        rendered_line(r).len() > 0,
        forall|i: int| 0 <= i < rendered_line(r).len() ==> rendered_line(r)[i] != '\n',
{
    let id = rendered_int(r.id);
    let stock = rendered_int(r.stock);
    let price = rendered_int(r.price);
    lemma_rendered_int_plain(r.id);
    lemma_rendered_int_plain(r.stock);
    lemma_rendered_int_plain(r.price);
    lemma_rendered_int_chars(r.id);
    lemma_parse_rendered(r.id);
    lemma_parse_rendered(r.stock);
    lemma_parse_rendered(r.price);
    let rest2 = stock + seq![','] + price;
    let rest1 = r.name + seq![','] + rest2;
    let line = rendered_line(r);
    assert(line =~= id + seq![','] + rest1);
    lemma_pieces_cut(id, rest1, ',', Some(4nat));
    lemma_pieces_cut(r.name, rest2, ',', Some(3nat));
    lemma_pieces_cut(stock, price, ',', Some(2nat));
    lemma_pieces_whole(price, ',', Some(1nat));
    let fields = pieces(line, ',', Some(4nat));
    assert(fields =~= seq![id, r.name, stock, price]);
}

/// Lines one behind another start with the first line and its line feed.
proof fn lemma_joined_first(lines: Seq<Seq<char>>)
    requires
        lines.len() > 0,
    ensures
        joined(lines) == lines[0] + seq!['\n'] + joined(lines.drop_first()),
    decreases lines.len(),
{
    if lines.len() == 1 {
        assert(lines.drop_last() =~= Seq::<Seq<char>>::empty());
        assert(lines.drop_first() =~= Seq::<Seq<char>>::empty());
        assert(joined(lines) =~= lines[0] + seq!['\n'] + joined(lines.drop_first()));
    } else {
        lemma_joined_first(lines.drop_last());
        assert(lines.drop_last().drop_first() =~= lines.drop_first().drop_last());
        assert(lines.drop_first().last() == lines.last());
        assert(joined(lines) =~= lines[0] + seq!['\n'] + joined(lines.drop_first()));
    }
}

/// Lines without a line feed in them, written one behind another with a line
/// feed behind each, are read back as those lines and an empty one at the end.
pub proof fn lemma_lines_of_joined(lines: Seq<Seq<char>>)
    requires
        forall|i: int, j: int|
            0 <= i < lines.len() && 0 <= j < lines[i].len() ==> lines[i][j] != '\n',
    ensures
        lines_of(joined(lines)) == lines.push(Seq::<char>::empty()),
    decreases lines.len(),
{
    if lines.len() == 0 {
        lemma_pieces_whole(Seq::<char>::empty(), '\n', None);
        assert(lines.push(Seq::<char>::empty()) =~= seq![Seq::<char>::empty()]);
    } else {
        let rest = lines.drop_first();
        lemma_joined_first(lines);
        assert forall|i: int, j: int|
            0 <= i < rest.len() && 0 <= j < rest[i].len() implies rest[i][j] != '\n' by {
            assert(rest[i] == lines[i + 1]);
        }
        lemma_lines_of_joined(rest);
        lemma_pieces_cut(lines[0], joined(rest), '\n', None);
        assert(seq![lines[0]] + rest.push(Seq::<char>::empty()) =~= lines.push(
            Seq::<char>::empty(),
        ));
    }
}

/// The ledger that putting the first `n` of the given records under their ids,
/// one after another, leaves.
pub open spec fn ledger_from(s: Seq<Record>, n: int) -> Map<int, Record>
    decreases n,
{
    if n <= 0 {
        Map::empty()
    } else {
        ledger_from(s, n - 1).insert(s[n - 1].id, s[n - 1])
    }
}

/// Putting the records of a listing under their ids gives the ledger back.
proof fn lemma_ledger_from_listing(s: Seq<Record>, m: Map<int, Record>, n: int)
    requires
        is_listing(s, m),
        0 <= n <= s.len(),
    ensures
        forall|k: int|
            ledger_from(s, n).contains_key(k) <==> exists|j: int| 0 <= j < n && s[j].id == k,
        forall|k: int| ledger_from(s, n).contains_key(k) ==> ledger_from(s, n)[k] == m[k],
    decreases n,
{
    if n > 0 {
        lemma_ledger_from_listing(s, m, n - 1);
        let before = ledger_from(s, n - 1);
        assert forall|k: int| ledger_from(s, n).contains_key(k) implies exists|j: int|
            0 <= j < n && s[j].id == k by {
            if k == s[n - 1].id {
                assert(0 <= n - 1 < n && s[n - 1].id == k);
            } else {
                assert(before.contains_key(k));
                let j = choose|j: int| 0 <= j < n - 1 && s[j].id == k;
                assert(0 <= j < n && s[j].id == k);
            }
        }
        assert forall|k: int| (exists|j: int| 0 <= j < n && s[j].id == k) implies ledger_from(
            s,
            n,
        ).contains_key(k) by {
            let j = choose|j: int| 0 <= j < n && s[j].id == k;
            if j < n - 1 {
                assert(before.contains_key(k));
            }
        }
    }
}

/// Reading the text written for a ledger gives the ledger back, with every
/// record as it was, where every name is storable; and no line of that text is
/// passed over.
pub proof fn lemma_decode_encode(m: Map<int, Record>)
    requires
        is_ledger(m),
        forall|k: int| m.contains_key(k) ==> storable(#[trigger] m[k].name),
    ensures
        decoded(encoded(listing(m))) == m,
        skipped(encoded(listing(m))) == Seq::<Skip>::empty(),
{
    lemma_listing_exists(m);
    let s = listing(m);
    let n = s.len() as int;
    let written = encoded_lines(s);
    let lines = written.push(Seq::<char>::empty());
    assert forall|i: int, j: int|
        0 <= i < written.len() && 0 <= j < written[i].len() implies written[i][j] != '\n' by {
        if i == 0 {
            reveal_strlit("id,name,stock,price");
        } else {
            assert(written[i] == rendered_line(s[i - 1]));
            assert(m.contains_key(s[i - 1].id));
            lemma_line_round_trip(s[i - 1]);
        }
    }
    lemma_lines_of_joined(written);
    assert(lines_of(encoded(s)) == lines);
    assert(lines.len() == n + 2);
    assert(lines[0] == header());
    lemma_read_written(s, m, lines, n);
    assert(lines[n + 1].len() == 0);
    lemma_ledger_from_listing(s, m, n);
    assert(ledger_from(s, n) =~= m) by {
        assert forall|k: int| m.contains_key(k) implies ledger_from(s, n).contains_key(k) by {
            let j = choose|j: int| 0 <= j < s.len() && s[j].id == k;
            assert(0 <= j < n && s[j].id == k);
        }
        assert forall|k: int| ledger_from(s, n).contains_key(k) implies m.contains_key(k) by {
            let j = choose|j: int| 0 <= j < n && s[j].id == k;
            assert(m.contains_key(s[j].id));
        }
    }
}

/// Of the lines written for a listing, the header and the first `i` record
/// lines read as the first `i` records, and none of them is passed over.
proof fn lemma_read_written(s: Seq<Record>, m: Map<int, Record>, lines: Seq<Seq<char>>, i: int)
    requires
        is_listing(s, m),
        is_ledger(m),
        forall|k: int| m.contains_key(k) ==> storable(#[trigger] m[k].name),
        lines == encoded_lines(s).push(Seq::<char>::empty()),
        0 <= i <= s.len(),
    ensures
        ledger_of(lines, i + 1) == ledger_from(s, i),
        skips_of(lines, i + 1) == Seq::<Skip>::empty(),
    decreases i,
{
    if i == 0 {
        assert(lines[0] == header());
        assert(ledger_of(lines, 0) == Map::<int, Record>::empty());
        assert(skips_of(lines, 0) == Seq::<Skip>::empty());
    } else {
        lemma_read_written(s, m, lines, i - 1);
        assert(lines[i] == rendered_line(s[i - 1]));
        assert(m.contains_key(s[i - 1].id));
        lemma_line_round_trip(s[i - 1]);
    }
}

} // verus!

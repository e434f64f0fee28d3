//! Command-line option values and the parsers of the post-processing arguments.
use vstd::prelude::*;
use crate::text::{char_rows, chars_of, split_chars, split_limited, split_on, trimmed, trimmed_string};

verus! {

/// How results are printed.
#[derive(Clone, Copy, Debug, PartialEq, Eq)]
pub enum OutputFormat {
    /// Human-readable output
    Human,
    /// JSON structured output
    Json,
    /// YAML structured output
    Yaml,
    /// CSV output (where applicable)
    Csv,
}

/// The kinds of configuration template that can be generated.
#[derive(Clone, Copy, Debug, PartialEq, Eq)]
pub enum TemplateType {
    /// Basic conversion template
    Basic,
    /// S3 storage template
    S3,
    /// Multi-filter template
    MultiFilter,
    /// Weather data template
    Weather,
    /// Ocean data template
    Ocean,
}

/// The formats a configuration file may be written in.
#[derive(Clone, Copy, Debug, PartialEq, Eq)]
pub enum ConfigFormat {
    Json,
    Yaml,
}

/// A column rename given as `old_name:new_name`.
#[derive(Debug, Clone)]
pub struct RenameColumnArg {
    pub old_name: String,
    pub new_name: String,
}

/// A unit conversion given as `column:from_unit:to_unit`.
#[derive(Debug, Clone)]
pub struct UnitConversionArg {
    pub column: String,
    pub from_unit: String,
    pub to_unit: String,
}

/// A formula given as `target_column:formula:source1,source2,...`.
#[derive(Debug, Clone)]
pub struct FormulaArg {
    pub target_column: String,
    pub formula: String,
    pub source_columns: Vec<String>,
}

/// Options that only the command-line tool reads.
#[derive(Debug, Clone, Default)]
pub struct CliOptions {
    /// Default log level
    pub log_level: Option<String>,
    /// Progress reporting settings
    pub progress: Option<ProgressConfig>,
    /// Output formatting preferences
    pub output_format: Option<OutputFormat>,
    /// Validation settings
    pub validation: Option<ValidationConfig>,
}

/// Progress reporting settings.
#[derive(Debug, Clone)]
pub struct ProgressConfig {
    /// Enable progress bars
    pub enabled: bool,
    /// Progress update interval in seconds
    pub interval: Option<u64>,
    /// Progress bar style
    pub style: Option<String>,
}

impl Default for ProgressConfig {
    fn default() -> (r: Self)
        ensures
            r.enabled,
            r.interval == Some(1u64),
            r.style is Some,
    {
        ProgressConfig {
            enabled: true,
            interval: Some(1),
            style: Some("\u{2588}\u{2589}\u{258a}\u{258b}\u{258c}\u{258d}\u{258e}\u{258f}  ".to_owned()),
        }
    }
}

/// Validation settings.
#[derive(Debug, Clone)]
pub struct ValidationConfig {
    /// Strict validation mode
    pub strict: bool,
    /// Validate S3 paths
    pub check_s3_paths: bool,
    /// Validate that input files can be opened
    pub check_file_access: bool,
}

impl Default for ValidationConfig {
    fn default() -> (r: Self)
        ensures
            !r.strict,
            r.check_s3_paths,
            !r.check_file_access,
    {
        ValidationConfig { strict: false, check_s3_paths: true, check_file_access: false }
    }
}

/// The old and new names of `old:new`, trimmed; `None` unless there are
/// exactly two pieces and neither is blank.
pub open spec fn rename_column_spec(s: Seq<char>) -> Option<(Seq<char>, Seq<char>)> {
    let parts = split_on(s, ':');
    if parts.len() == 2 && trimmed(parts[0]).len() > 0 && trimmed(parts[1]).len() > 0 {
        Some((trimmed(parts[0]), trimmed(parts[1])))
    } else {
        None
    }
}

/// The column, source unit and target unit of `column:from:to`, trimmed;
/// `None` unless there are exactly three pieces and none is blank.
pub open spec fn unit_conversion_spec(s: Seq<char>) -> Option<(Seq<char>, Seq<char>, Seq<char>)> {
    let parts = split_on(s, ':');
    if parts.len() == 3 && trimmed(parts[0]).len() > 0 && trimmed(parts[1]).len() > 0 && trimmed(
        parts[2],
    ).len() > 0 {
        Some((trimmed(parts[0]), trimmed(parts[1]), trimmed(parts[2])))
    } else {
        None
    }
}

/// The trimmed pieces that are not blank, in order.
pub open spec fn nonblank_trimmed(pieces: Seq<Seq<char>>) -> Seq<Seq<char>>
    decreases pieces.len(),
{
    if pieces.len() == 0 {
        Seq::empty()
    } else {
        let front = nonblank_trimmed(pieces.drop_last());
        let t = trimmed(pieces.last());
        if t.len() > 0 {
            front.push(t)
        } else {
            front
        }
    }
}

/// The target, formula and source columns of `target:formula:sources`: the
/// first two `:` split it in three, and the sources are the comma-separated
/// pieces of the third part that are not blank. `None` unless there are
/// three parts, the target and formula are not blank, and there is a source.
pub open spec fn formula_spec(s: Seq<char>) -> Option<(Seq<char>, Seq<char>, Seq<Seq<char>>)> {
    let parts = split_limited(s, ':', 3);
    if parts.len() == 3 {
        let sources = nonblank_trimmed(split_on(parts[2], ','));
        if trimmed(parts[0]).len() > 0 && trimmed(parts[1]).len() > 0 && sources.len() > 0 {
            Some((trimmed(parts[0]), trimmed(parts[1]), sources))
        } else {
            None
        }
    } else {
        None
    }
}

/// The string views of `v`.
pub open spec fn strings_view(v: Seq<String>) -> Seq<Seq<char>> {
    v.map_values(|s: String| s@)
}

/// A rename from names already trimmed: both must be non-empty.
pub fn rename_column_arg(old_name: String, new_name: String) -> (r: Result<RenameColumnArg, String>)
    ensures
        r is Ok <==> (old_name@.len() > 0 && new_name@.len() > 0),
        r matches Ok(arg) ==> arg.old_name@ == old_name@ && arg.new_name@ == new_name@,
{
    if old_name.as_str().is_empty() || new_name.as_str().is_empty() {
        return Err("Column names cannot be empty".to_owned());
    }
    Ok(RenameColumnArg { old_name, new_name })
}

/// A unit conversion from names already trimmed: none may be empty.
pub fn unit_conversion_arg(column: String, from_unit: String, to_unit: String) -> (r: Result<
    UnitConversionArg,
    String,
>)
    ensures
        r is Ok <==> (column@.len() > 0 && from_unit@.len() > 0 && to_unit@.len() > 0),
        r matches Ok(arg) ==> arg.column@ == column@ && arg.from_unit@ == from_unit@ && arg.to_unit@
            == to_unit@,
{
    if column.as_str().is_empty() || from_unit.as_str().is_empty() || to_unit.as_str().is_empty() {
        return Err("Column and unit names cannot be empty".to_owned());
    }
    Ok(UnitConversionArg { column, from_unit, to_unit })
}

/// The pieces that are not empty, in order.
pub open spec fn nonempty(pieces: Seq<Seq<char>>) -> Seq<Seq<char>>
    decreases pieces.len(),
{
    if pieces.len() == 0 {
        Seq::empty()
    } else {
        let front = nonempty(pieces.drop_last());
        if pieces.last().len() > 0 {
            front.push(pieces.last())
        } else {
            front
        }
    }
}

/// A formula from parts already trimmed: the sources are the pieces that
/// are not empty, and none of the target, the formula and the sources may
/// be empty.
pub fn formula_arg(target_column: String, formula: String, pieces: &Vec<String>) -> (r: Result<
    FormulaArg,
    String,
>)
    ensures
        r is Ok <==> (target_column@.len() > 0 && formula@.len() > 0 && nonempty(
            strings_view(pieces@),
        ).len() > 0),
        r matches Ok(arg) ==> arg.target_column@ == target_column@ && arg.formula@ == formula@
            && strings_view(arg.source_columns@) == nonempty(strings_view(pieces@)),
{
    let ghost pv = strings_view(pieces@);
    let mut source_columns: Vec<String> = Vec::new();
    let mut i: usize = 0;
    while i < pieces.len()
        invariant
            i <= pieces.len(),
            pv == strings_view(pieces@),
            strings_view(source_columns@) == nonempty(pv.subrange(0, i as int)),
        decreases pieces.len() - i,
    {
        let ghost next = pv.subrange(0, i + 1);
        assert(next.drop_last() =~= pv.subrange(0, i as int));
        assert(next.last() == pieces@[i as int]@);
        if !pieces[i].as_str().is_empty() {
            let piece = pieces[i].clone();
            let ghost before = strings_view(source_columns@);
            source_columns.push(piece);
            assert(strings_view(source_columns@) =~= before.push(piece@));
        }
        i += 1;
    }
    assert(pv.subrange(0, pieces.len() as int) =~= pv);
    if target_column.as_str().is_empty() || formula.as_str().is_empty() || source_columns.len() == 0 {
        return Err("Target column, formula, and source columns cannot be empty".to_owned());
    }
    Ok(FormulaArg { target_column, formula, source_columns })
}

/// Parses `old_name:new_name`.
pub fn parse_rename_column(s: &str) -> (r: Result<RenameColumnArg, String>)
    ensures
        match (r, rename_column_spec(s@)) {
            (Ok(arg), Some((old_name, new_name))) => arg.old_name@ == old_name && arg.new_name@ == new_name,
            (Err(_), None) => true,
            _ => false,
        },
{
    let cs = chars_of(s);
    let parts = split_chars(&cs, ':', 0);
    if parts.len() != 2 {
        return Err("Column rename must be in format 'old_name:new_name'".to_owned());
    }
    let old_name = trimmed_string(&parts[0]);
    let new_name = trimmed_string(&parts[1]);
    assert(parts@[0]@ == split_on(s@, ':')[0] && parts@[1]@ == split_on(s@, ':')[1]);
    rename_column_arg(old_name, new_name)
}

/// Parses `column:from_unit:to_unit`.
pub fn parse_unit_conversion(s: &str) -> (r: Result<UnitConversionArg, String>)
    ensures
        match (r, unit_conversion_spec(s@)) {
            (Ok(arg), Some((column, from_unit, to_unit))) => arg.column@ == column && arg.from_unit@
                == from_unit && arg.to_unit@ == to_unit,
            (Err(_), None) => true,
            _ => false,
        },
{
    let cs = chars_of(s);
    let parts = split_chars(&cs, ':', 0);
    if parts.len() != 3 {
        return Err("Unit conversion must be in format 'column:from_unit:to_unit'".to_owned());
    }
    let column = trimmed_string(&parts[0]);
    let from_unit = trimmed_string(&parts[1]);
    let to_unit = trimmed_string(&parts[2]);
    assert(parts@[0]@ == split_on(s@, ':')[0] && parts@[1]@ == split_on(s@, ':')[1]
        && parts@[2]@ == split_on(s@, ':')[2]);
    unit_conversion_arg(column, from_unit, to_unit)
}

/// Parses `target_column:formula:source1,source2,...`.
pub fn parse_formula(s: &str) -> (r: Result<FormulaArg, String>)
    ensures
        match (r, formula_spec(s@)) {
            (Ok(arg), Some((target, formula, sources))) => arg.target_column@ == target
                && arg.formula@ == formula && strings_view(arg.source_columns@) == sources,
            (Err(_), None) => true,
            _ => false,
        },
{
    let cs = chars_of(s);
    let parts = split_chars(&cs, ':', 3);
    if parts.len() != 3 {
        return Err("Formula must be in format 'target_column:formula:source1,source2,...'".to_owned());
    }
    let ghost pv = split_limited(s@, ':', 3);
    assert(parts@[0]@ == pv[0] && parts@[1]@ == pv[1] && parts@[2]@ == pv[2]);
    let target_column = trimmed_string(&parts[0]);
    let formula = trimmed_string(&parts[1]);
    let pieces = split_chars(&parts[2], ',', 0);
    let ghost piv = char_rows(pieces@);
    let mut trimmed_pieces: Vec<String> = Vec::new();
    let mut i: usize = 0;
    while i < pieces.len()
        invariant
            i <= pieces.len(),
            piv == char_rows(pieces@),
            strings_view(trimmed_pieces@) == piv.subrange(0, i as int).map_values(|p: Seq<char>| trimmed(p)),
        decreases pieces.len() - i,
    {
        assert(piv[i as int] == pieces@[i as int]@);
        let t = trimmed_string(&pieces[i]);
        let ghost before = strings_view(trimmed_pieces@);
        trimmed_pieces.push(t);
        assert(strings_view(trimmed_pieces@) =~= before.push(t@));
        i += 1;
        assert(strings_view(trimmed_pieces@) =~= piv.subrange(0, i as int).map_values(|p: Seq<char>| trimmed(p)));
    }
    assert(piv.subrange(0, pieces.len() as int) =~= piv);
    proof {
        lemma_nonempty_of_trimmed(piv);
    }
    formula_arg(target_column, formula, &trimmed_pieces)
}

proof fn lemma_nonempty_of_trimmed(pieces: Seq<Seq<char>>)
    ensures
        nonempty(pieces.map_values(|p: Seq<char>| trimmed(p))) == nonblank_trimmed(pieces),
    decreases pieces.len(),
{
    if pieces.len() > 0 {
        let t = pieces.map_values(|p: Seq<char>| trimmed(p));
        assert(t.drop_last() =~= pieces.drop_last().map_values(|p: Seq<char>| trimmed(p)));
        lemma_nonempty_of_trimmed(pieces.drop_last());
    }
}

} // verus!

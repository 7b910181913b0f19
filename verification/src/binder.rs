//! The field binder and per-instruction validation.
//!
//! Each declared field is bound to a one-character symbol (an explicit
//! override, or the field's own name) and to a primitive type of known bit
//! width.  Validation is exhaustive within one pass: a symbol that is not a
//! single character, a lowercase hex digit, a numeric character, an
//! unsupported type, a duplicated symbol, a symbol missing from the
//! pattern, a variable wider than its type, and a pattern symbol bound to
//! no field are each reported as their own error, so the author sees every
//! independently detectable mistake at once.

use vstd::prelude::*;
use crate::model::{
    char_is_numeric, err_instr, find_var, numeric_char, occ, sym_legal, FieldDescriptor,
    FieldType, InstrDescriptor, InstructionModel, SpecError, VariableSpec, lemma_find_var,
};
use crate::pattern::{
    parse_pattern, spec_parse_pattern, str_chars, Bit, Opcode,
};
use crate::posmap::{occurrences, pos_ints};

verus! {

/// The characters a field's symbol is written with: the explicit override
/// if one is given, the field's name otherwise.
pub open spec fn sym_chars_of(f: FieldDescriptor) -> Seq<char> {
    match f.symbol {
        Some(s) => s@,
        None => f.name@,
    }
}

/// The symbol a field is bound to (meaningful when exactly one character).
pub open spec fn field_symbol(f: FieldDescriptor) -> char {
    sym_chars_of(f)[0]
}

/// The type a type name denotes, if this library supports it.
pub open spec fn type_of_chars(s: Seq<char>) -> Option<FieldType> {
    if s == seq!['b', 'o', 'o', 'l'] {
        Some(FieldType::Bool)
    } else if s == seq!['u', '8'] {
        Some(FieldType::U8)
    } else if s == seq!['i', '8'] {
        Some(FieldType::I8)
    } else if s == seq!['u', '1', '6'] {
        Some(FieldType::U16)
    } else if s == seq!['i', '1', '6'] {
        Some(FieldType::I16)
    } else if s == seq!['u', '3', '2'] {
        Some(FieldType::U32)
    } else if s == seq!['i', '3', '2'] {
        Some(FieldType::I32)
    } else if s == seq!['u', '6', '4'] {
        Some(FieldType::U64)
    } else if s == seq!['i', '6', '4'] {
        Some(FieldType::I64)
    } else if s == seq!['u', '1', '2', '8'] {
        Some(FieldType::U128)
    } else if s == seq!['i', '1', '2', '8'] {
        Some(FieldType::I128)
    } else if s == seq!['u', 's', 'i', 'z', 'e'] {
        Some(FieldType::Usize)
    } else if s == seq!['i', 's', 'i', 'z', 'e'] {
        Some(FieldType::Isize)
    } else {
        None
    }
}

/// A declared field is acceptable: its symbol is one legal character and
/// its type is supported.
pub open spec fn field_ok(f: FieldDescriptor) -> bool {
    &&& sym_chars_of(f).len() == 1
    &&& sym_legal(field_symbol(f))
    &&& type_of_chars(f.ty@) is Some
}

/// The pattern an instruction descriptor parses to (empty when malformed;
/// meaningful only under `desc_valid`).
pub open spec fn parsed_pat(d: InstrDescriptor) -> Seq<Bit> {
    match spec_parse_pattern(d.pattern@) {
        Some(p) => p,
        None => Seq::empty(),
    }
}

/// A whole instruction descriptor is acceptable: the pattern parses, every
/// field is acceptable, no two fields share a symbol, every declared
/// symbol occurs in the pattern and fits its type's width, and every
/// pattern symbol other than the free wildcard is declared.
pub open spec fn desc_valid(d: InstrDescriptor) -> bool {
    let pat = parsed_pat(d);
    &&& spec_parse_pattern(d.pattern@) is Some
    &&& forall|k: int| 0 <= k < d.fields@.len() ==> field_ok(#[trigger] d.fields@[k])
    &&& forall|k1: int, k2: int|
        0 <= k1 < k2 < d.fields@.len() ==> field_symbol(#[trigger] d.fields@[k1]) != field_symbol(
            #[trigger] d.fields@[k2],
        )
    &&& forall|k: int|
        0 <= k < d.fields@.len() ==> 1 <= occ(pat, field_symbol(#[trigger] d.fields@[k])).len()
            <= type_of_chars(d.fields@[k].ty@).unwrap().spec_width()
    &&& forall|p: int|
        0 <= p < pat.len() ==> match #[trigger] pat[p] {
            Bit::Var(c) => c == '*' || exists|k: int|
                0 <= k < d.fields@.len() && field_symbol(#[trigger] d.fields@[k]) == c,
            _ => true,
        }
}

/// The compiled model a valid descriptor yields.
pub open spec fn model_matches_desc(m: InstructionModel, d: InstrDescriptor) -> bool {
    &&& m.name@ == d.name@
    &&& m.opcode.bits@ == parsed_pat(d)
    &&& m.vars@.len() == d.fields@.len()
    &&& forall|k: int|
        0 <= k < d.fields@.len() ==> {
            &&& (#[trigger] m.vars@[k]).name@ == d.fields@[k].name@
            &&& m.vars@[k].symbol == field_symbol(d.fields@[k])
            &&& Some(m.vars@[k].ty) == type_of_chars(d.fields@[k].ty@)
        }
}

/// The occurrence-count condition for one bound variable.
pub open spec fn occ_ok_at(pat: Seq<Bit>, vars: Seq<VariableSpec>, j: int) -> bool {
    1 <= occ(pat, vars[j].symbol).len() <= vars[j].ty.spec_width()
}

/// The boundness condition for one pattern position.
pub open spec fn bound_ok_at(pat: Seq<Bit>, vars: Seq<VariableSpec>, p: int) -> bool {
    match pat[p] {
        Bit::Var(c) => c == '*' || find_var(vars, c) >= 0,
        _ => true,
    }
}

/// Parses a type name.
fn parse_type(cs: &Vec<char>) -> (r: Option<FieldType>)
    ensures
        r == type_of_chars(cs@),
{
    let n = cs.len();
    if n == 4 && cs[0] == 'b' && cs[1] == 'o' && cs[2] == 'o' && cs[3] == 'l' {
        proof {
            assert(cs@ =~= seq!['b', 'o', 'o', 'l']);
        }
        return Some(FieldType::Bool);
    }
    if n == 2 && cs[1] == '8' {
        if cs[0] == 'u' {
            proof {
                assert(cs@ =~= seq!['u', '8']);
            }
            return Some(FieldType::U8);
        }
        if cs[0] == 'i' {
            proof {
                assert(cs@ =~= seq!['i', '8']);
            }
            return Some(FieldType::I8);
        }
    }
    if n == 3 && cs[1] == '1' && cs[2] == '6' {
        if cs[0] == 'u' {
            proof {
                assert(cs@ =~= seq!['u', '1', '6']);
            }
            return Some(FieldType::U16);
        }
        if cs[0] == 'i' {
            proof {
                assert(cs@ =~= seq!['i', '1', '6']);
            }
            return Some(FieldType::I16);
        }
    }
    if n == 3 && cs[1] == '3' && cs[2] == '2' {
        if cs[0] == 'u' {
            proof {
                assert(cs@ =~= seq!['u', '3', '2']);
            }
            return Some(FieldType::U32);
        }
        if cs[0] == 'i' {
            proof {
                assert(cs@ =~= seq!['i', '3', '2']);
            }
            return Some(FieldType::I32);
        }
    }
    if n == 3 && cs[1] == '6' && cs[2] == '4' {
        if cs[0] == 'u' {
            proof {
                assert(cs@ =~= seq!['u', '6', '4']);
            }
            return Some(FieldType::U64);
        }
        if cs[0] == 'i' {
            proof {
                assert(cs@ =~= seq!['i', '6', '4']);
            }
            return Some(FieldType::I64);
        }
    }
    if n == 4 && cs[1] == '1' && cs[2] == '2' && cs[3] == '8' {
        if cs[0] == 'u' {
            proof {
                assert(cs@ =~= seq!['u', '1', '2', '8']);
            }
            return Some(FieldType::U128);
        }
        if cs[0] == 'i' {
            proof {
                assert(cs@ =~= seq!['i', '1', '2', '8']);
            }
            return Some(FieldType::I128);
        }
    }
    if n == 5 && cs[1] == 's' && cs[2] == 'i' && cs[3] == 'z' && cs[4] == 'e' {
        if cs[0] == 'u' {
            proof {
                assert(cs@ =~= seq!['u', 's', 'i', 'z', 'e']);
            }
            return Some(FieldType::Usize);
        }
        if cs[0] == 'i' {
            proof {
                assert(cs@ =~= seq!['i', 's', 'i', 'z', 'e']);
            }
            return Some(FieldType::Isize);
        }
    }
    proof {
        assert(cs@ != seq!['b', 'o', 'o', 'l']);
        assert(cs@ != seq!['u', '8']);
        assert(cs@ != seq!['i', '8']);
        assert(cs@ != seq!['u', '1', '6']);
        assert(cs@ != seq!['i', '1', '6']);
        assert(cs@ != seq!['u', '3', '2']);
        assert(cs@ != seq!['i', '3', '2']);
        assert(cs@ != seq!['u', '6', '4']);
        assert(cs@ != seq!['i', '6', '4']);
        assert(cs@ != seq!['u', '1', '2', '8']);
        assert(cs@ != seq!['i', '1', '2', '8']);
        assert(cs@ != seq!['u', 's', 'i', 'z', 'e']);
        assert(cs@ != seq!['i', 's', 'i', 'z', 'e']);
    }
    None
}

/// Finds the variable bound to a symbol.
pub fn find_var_exec(vars: &Vec<VariableSpec>, c: char) -> (r: Option<usize>)
    ensures
        match r {
            Some(k) => find_var(vars@, c) == k as int,
            None => find_var(vars@, c) < 0,
        },
{
    proof {
        lemma_find_var(vars@, c);
    }
    let n = vars.len();
    let mut k: usize = 0;
    while k < n
        invariant
            k <= n,
            n == vars@.len(),
            forall|k2: int| 0 <= k2 < k ==> (#[trigger] vars@[k2]).symbol != c,
        decreases n - k,
    {
        if vars[k].symbol == c {
            proof {
                lemma_find_var_prefix(vars@, c, k as int);
            }
            return Some(k);
        }
        k = k + 1;
    }
    proof {
        lemma_find_var(vars@, c);
        if find_var(vars@, c) >= 0 {
            assert(vars@[find_var(vars@, c)].symbol == c);
        }
    }
    None
}

/// `find_var` returns the first index whose symbol matches.
proof fn lemma_find_var_prefix(vars: Seq<VariableSpec>, c: char, k: int)
    requires
        0 <= k < vars.len(),
        vars[k].symbol == c,
        forall|k2: int| 0 <= k2 < k ==> (#[trigger] vars[k2]).symbol != c,
    ensures
        find_var(vars, c) == k,
    decreases vars.len(),
{
    if k > 0 {
        assert(vars[0].symbol != c);
        let rest = vars.drop_first();
        assert(rest[k - 1] == vars[k]);
        assert forall|k2: int| 0 <= k2 < k - 1 implies (#[trigger] rest[k2]).symbol != c by {
            assert(rest[k2] == vars[k2 + 1]);
        }
        lemma_find_var_prefix(rest, c, k - 1);
    }
}

/// Binds one instruction descriptor to its model, pushing one error for
/// every independently detectable mistake.  Returns the model exactly when
/// the descriptor is valid; on failure at least one error was pushed.
pub fn bind_instruction(d: &InstrDescriptor, idx: usize, errors: &mut Vec<SpecError>) -> (r:
    Option<InstructionModel>)
    ensures
        r is Some <==> desc_valid(*d),
        r is Some ==> {
            &&& model_matches_desc(r.unwrap(), *d)
            &&& crate::model::wf_model(r.unwrap())
        },
        final(errors)@.len() >= old(errors)@.len(),
        forall|e: int|
            0 <= e < old(errors)@.len() ==> final(errors)@[e] == #[trigger] old(errors)@[e],
        r is None ==> final(errors)@.len() > old(errors)@.len(),
        r is None ==> exists|k: int|
            old(errors)@.len() <= k < final(errors)@.len() && err_instr(
                #[trigger] final(errors)@[k],
            ) == idx as int,
        r is Some ==> final(errors)@ == old(errors)@,
{
    let pat_opt = parse_pattern(d.pattern.as_str());
    let ghost mut err_at: int = -1;
    if pat_opt.is_none() {
        errors.push(SpecError::MalformedPattern { instr: idx });
        proof {
            err_at = errors@.len() - 1;
        }
    }
    let nf = d.fields.len();
    let mut vars: Vec<VariableSpec> = Vec::new();
    let mut fields_ok = true;
    let mut k: usize = 0;
    while k < nf
        invariant
            k <= nf,
            nf == d.fields@.len(),
            errors@.len() >= old(errors)@.len(),
            err_at >= 0 ==> old(errors)@.len() <= err_at < errors@.len() && err_instr(
                errors@[err_at],
            ) == idx as int,
            pat_opt is None ==> err_at >= 0,
            pat_opt is Some && fields_ok ==> errors@ == old(errors)@,
            forall|e: int|
                0 <= e < old(errors)@.len() ==> errors@[e] == #[trigger] old(errors)@[e],
            fields_ok <==> (forall|k2: int| 0 <= k2 < k ==> field_ok(#[trigger] d.fields@[k2]))
                && (forall|k1: int, k2: int|
                0 <= k1 < k2 < k ==> field_symbol(#[trigger] d.fields@[k1]) != field_symbol(
                    #[trigger] d.fields@[k2],
                )),
            fields_ok ==> vars@.len() == k,
            fields_ok ==> forall|k2: int|
                0 <= k2 < k ==> {
                    &&& (#[trigger] vars@[k2]).name@ == d.fields@[k2].name@
                    &&& vars@[k2].symbol == field_symbol(d.fields@[k2])
                    &&& Some(vars@[k2].ty) == type_of_chars(d.fields@[k2].ty@)
                },
            !fields_ok ==> err_at >= 0,
        decreases nf - k,
    {
        let f = &d.fields[k];
        let sym_string: &String = match &f.symbol {
            Some(s) => s,
            None => &f.name,
        };
        let cs = str_chars(sym_string.as_str());
        proof {
            assert(cs@ == sym_chars_of(d.fields@[k as int]));
        }
        if cs.len() != 1 {
            errors.push(SpecError::InvalidVariableName { instr: idx, field: k });
            proof {
                err_at = errors@.len() - 1;
            }
            fields_ok = false;
            k = k + 1;
            continue;
        }
        let c = cs[0];
        let lower_hex = c >= 'a' && c <= 'f';
        if lower_hex || char_is_numeric(c) {
            errors.push(SpecError::InvalidVariableName { instr: idx, field: k });
            proof {
                err_at = errors@.len() - 1;
            }
            fields_ok = false;
            k = k + 1;
            continue;
        }
        assert(sym_legal(c));
        let tcs = str_chars(f.ty.as_str());
        let ty_opt = parse_type(&tcs);
        if ty_opt.is_none() {
            errors.push(SpecError::UnsupportedType { instr: idx, field: k });
            proof {
                err_at = errors@.len() - 1;
            }
            fields_ok = false;
            k = k + 1;
            continue;
        }
        let ty = ty_opt.unwrap();
        if fields_ok {
            let ghost vars_pre = vars@;
            match find_var_exec(&vars, c) {
                Some(_) => {
                    proof {
                        lemma_find_var(vars_pre, c);
                        let kdup = find_var(vars_pre, c);
                        assert(vars_pre[kdup].symbol == c);
                        assert(field_symbol(d.fields@[kdup]) == field_symbol(
                            d.fields@[k as int],
                        ));
                    }
                    errors.push(SpecError::DuplicateSymbol { instr: idx, field: k });
            proof {
                err_at = errors@.len() - 1;
            }
                    fields_ok = false;
                    k = k + 1;
                    continue;
                },
                None => {
                    proof {
                        lemma_find_var(vars_pre, c);
                    }
                },
            }
            vars.push(VariableSpec { name: f.name.clone(), symbol: c, ty });
            proof {
                assert(field_ok(d.fields@[k as int]));
                assert forall|k1: int|
                    0 <= k1 < k implies field_symbol(#[trigger] d.fields@[k1]) != field_symbol(
                    d.fields@[k as int],
                ) by {
                    assert(vars_pre[k1].symbol == field_symbol(d.fields@[k1]));
                    if vars_pre[k1].symbol == c {
                        lemma_find_var(vars_pre, c);
                    }
                }
            }
        } else {
            // an earlier field already failed; this one was still checked
        }
        k = k + 1;
    }
    if pat_opt.is_none() || !fields_ok {
        proof {
            assert(old(errors)@.len() <= err_at < errors@.len() && err_instr(errors@[err_at])
                == idx as int);
        }
        return None;
    }
    let op = pat_opt.unwrap();
    let ghost pat = op.bits@;
    let nv = vars.len();
    let mut checks_ok = true;
    let mut j: usize = 0;
    while j < nv
        invariant
            j <= nv,
            nv == vars@.len(),
            nv == d.fields@.len(),
            pat == op.bits@,
            errors@.len() >= old(errors)@.len(),
            forall|e: int|
                0 <= e < old(errors)@.len() ==> errors@[e] == #[trigger] old(errors)@[e],
            forall|k2: int|
                0 <= k2 < nv ==> {
                    &&& (#[trigger] vars@[k2]).name@ == d.fields@[k2].name@
                    &&& vars@[k2].symbol == field_symbol(d.fields@[k2])
                    &&& Some(vars@[k2].ty) == type_of_chars(d.fields@[k2].ty@)
                },
            checks_ok <==> (forall|j2: int| 0 <= j2 < j ==> #[trigger] occ_ok_at(pat, vars@, j2)),
            err_at >= 0 ==> old(errors)@.len() <= err_at < errors@.len() && err_instr(
                errors@[err_at],
            ) == idx as int,
            checks_ok ==> errors@ == old(errors)@,
            !checks_ok ==> err_at >= 0,
        decreases nv - j,
    {
        let sym = vars[j].symbol;
        let positions = occurrences(&op, sym);
        let n = positions.len();
        proof {
            assert(pos_ints(positions@).len() == occ(pat, sym).len());
        }
        if n == 0 {
            errors.push(SpecError::UnusedVariable { instr: idx, field: j });
            proof {
                err_at = errors@.len() - 1;
            }
            checks_ok = false;
            proof {
                assert(!occ_ok_at(pat, vars@, j as int));
            }
        } else if n > vars[j].ty.width() {
            errors.push(SpecError::Overflow { instr: idx, field: j });
            proof {
                err_at = errors@.len() - 1;
            }
            checks_ok = false;
            proof {
                assert(!occ_ok_at(pat, vars@, j as int));
            }
        } else {
            proof {
                assert(occ_ok_at(pat, vars@, j as int));
            }
        }
        j = j + 1;
    }
    let np = op.bits.len();
    let mut p: usize = 0;
    while p < np
        invariant
            p <= np,
            np == pat.len(),
            pat == op.bits@,
            nv == vars@.len(),
            nv == d.fields@.len(),
            errors@.len() >= old(errors)@.len(),
            forall|e: int|
                0 <= e < old(errors)@.len() ==> errors@[e] == #[trigger] old(errors)@[e],
            forall|k2: int|
                0 <= k2 < nv ==> {
                    &&& (#[trigger] vars@[k2]).name@ == d.fields@[k2].name@
                    &&& vars@[k2].symbol == field_symbol(d.fields@[k2])
                    &&& Some(vars@[k2].ty) == type_of_chars(d.fields@[k2].ty@)
                },
            checks_ok <==> ((forall|j2: int| 0 <= j2 < nv ==> #[trigger] occ_ok_at(pat, vars@, j2))
                && (forall|p2: int| 0 <= p2 < p ==> #[trigger] bound_ok_at(pat, vars@, p2))),
            err_at >= 0 ==> old(errors)@.len() <= err_at < errors@.len() && err_instr(
                errors@[err_at],
            ) == idx as int,
            checks_ok ==> errors@ == old(errors)@,
            !checks_ok ==> err_at >= 0,
        decreases np - p,
    {
        match op.bits[p] {
            Bit::Var(c) => {
                if c != '*' {
                    match find_var_exec(&vars, c) {
                        Some(_) => {
                            proof {
                                assert(bound_ok_at(pat, vars@, p as int));
                            }
                        },
                        None => {
                            errors.push(SpecError::UnboundSymbol { instr: idx, symbol: c });
            proof {
                err_at = errors@.len() - 1;
            }
                            checks_ok = false;
                            proof {
                                assert(!bound_ok_at(pat, vars@, p as int));
                            }
                        },
                    }
                } else {
                    proof {
                        assert(bound_ok_at(pat, vars@, p as int));
                    }
                }
            },
            _ => {
                proof {
                    assert(bound_ok_at(pat, vars@, p as int));
                }
            },
        }
        p = p + 1;
    }
    if !checks_ok {
        proof {
            if !(forall|j2: int| 0 <= j2 < nv ==> #[trigger] occ_ok_at(pat, vars@, j2)) {
                let j2 = choose|j2: int| 0 <= j2 < nv && !#[trigger] occ_ok_at(pat, vars@, j2);
                assert(vars@[j2].symbol == field_symbol(d.fields@[j2]));
                assert(Some(vars@[j2].ty) == type_of_chars(d.fields@[j2].ty@));
                assert(!desc_valid(*d));
            } else {
                let p2 = choose|p2: int|
                    0 <= p2 < pat.len() && !#[trigger] bound_ok_at(pat, vars@, p2);
                match pat[p2] {
                    Bit::Var(c) => {
                        lemma_find_var(vars@, c);
                        if exists|kk: int|
                            0 <= kk < d.fields@.len() && field_symbol(#[trigger] d.fields@[kk])
                                == c {
                            let kk = choose|kk: int|
                                0 <= kk < d.fields@.len() && field_symbol(
                                    #[trigger] d.fields@[kk],
                                ) == c;
                            assert(vars@[kk].symbol == c);
                        }
                        assert(!desc_valid(*d));
                    },
                    _ => {
                        assert(false);
                    },
                }
            }
        }
        proof {
            assert(old(errors)@.len() <= err_at < errors@.len() && err_instr(errors@[err_at])
                == idx as int);
        }
        return None;
    }
    let m = InstructionModel { name: d.name.clone(), opcode: op, vars };
    proof {
        assert forall|j2: int|
            0 <= j2 < m.vars@.len() implies 1 <= occ(pat, (#[trigger] m.vars@[j2]).symbol).len()
            <= m.vars@[j2].ty.spec_width() by {
            assert(occ_ok_at(pat, m.vars@, j2));
        }
        assert forall|p2: int| 0 <= p2 < pat.len() implies match #[trigger] pat[p2] {
            Bit::Var(c) => c == '*' || find_var(m.vars@, c) >= 0,
            _ => true,
        } by {
            assert(bound_ok_at(pat, m.vars@, p2));
        }
        lemma_desc_valid_equiv(*d, m, pat);
    }
    Some(m)
}

/// A model whose checked conditions all hold is well formed, belongs to a
/// valid descriptor, and conversely.
proof fn lemma_desc_valid_equiv(d: InstrDescriptor, m: InstructionModel, pat: Seq<Bit>)
    requires
        spec_parse_pattern(d.pattern@) is Some,
        pat == parsed_pat(d),
        m.opcode.bits@ == pat,
        pat.len() % 8 == 0,
        m.name@ == d.name@,
        m.vars@.len() == d.fields@.len(),
        forall|k: int| 0 <= k < d.fields@.len() ==> field_ok(#[trigger] d.fields@[k]),
        forall|k1: int, k2: int|
            0 <= k1 < k2 < d.fields@.len() ==> field_symbol(#[trigger] d.fields@[k1])
                != field_symbol(#[trigger] d.fields@[k2]),
        forall|k2: int|
            0 <= k2 < m.vars@.len() ==> {
                &&& (#[trigger] m.vars@[k2]).name@ == d.fields@[k2].name@
                &&& m.vars@[k2].symbol == field_symbol(d.fields@[k2])
                &&& Some(m.vars@[k2].ty) == type_of_chars(d.fields@[k2].ty@)
            },
        forall|j2: int|
            0 <= j2 < m.vars@.len() ==> 1 <= occ(pat, (#[trigger] m.vars@[j2]).symbol).len()
                <= m.vars@[j2].ty.spec_width(),
        forall|p2: int|
            0 <= p2 < pat.len() ==> match #[trigger] pat[p2] {
                Bit::Var(c) => c == '*' || find_var(m.vars@, c) >= 0,
                _ => true,
            },
    ensures
        desc_valid(d),
        model_matches_desc(m, d),
        crate::model::wf_model(m),
{
    assert forall|k: int|
        0 <= k < d.fields@.len() implies 1 <= occ(pat, field_symbol(#[trigger] d.fields@[k])).len()
        <= type_of_chars(d.fields@[k].ty@).unwrap().spec_width() by {
        assert(m.vars@[k].symbol == field_symbol(d.fields@[k]));
        assert(Some(m.vars@[k].ty) == type_of_chars(d.fields@[k].ty@));
    }
    assert forall|p2: int| 0 <= p2 < pat.len() implies match #[trigger] pat[p2] {
        Bit::Var(c) => c == '*' || exists|k: int|
            0 <= k < d.fields@.len() && field_symbol(#[trigger] d.fields@[k]) == c,
        _ => true,
    } by {
        match pat[p2] {
            Bit::Var(c) => {
                if c != '*' {
                    lemma_find_var(m.vars@, c);
                    let kf = find_var(m.vars@, c);
                    assert(m.vars@[kf].symbol == c);
                    assert(field_symbol(d.fields@[kf]) == c);
                }
            },
            _ => {},
        }
    }
    assert forall|j1: int, j2: int|
        0 <= j1 < j2 < m.vars@.len() implies #[trigger] m.vars@[j1].symbol != #[trigger] m.vars@[
        j2
    ].symbol by {
        assert(field_symbol(d.fields@[j1]) != field_symbol(d.fields@[j2]));
    }
}

} // verus!

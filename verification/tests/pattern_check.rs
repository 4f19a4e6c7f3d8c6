//! The byte scanner against a reference regular-expression engine: both must
//! find the same captures, in the same order, on ASCII replies.

use potsweep::extract::extract_captures;
use regex::Regex;

fn scanner(s: &str) -> Vec<String> {
    extract_captures(s.as_bytes())
        .into_iter()
        .map(|c| String::from_utf8(c).unwrap())
        .collect()
}

fn reference(s: &str) -> Vec<String> {
    let re = Regex::new(r"Final energy =\s+(-?\d+\.?\d+)\s+eV").unwrap();
    re.captures_iter(s).map(|c| c.get(1).unwrap().as_str().to_string()).collect()
}

#[test]
fn scanner_agrees_with_reference_engine() {
    let samples = [
        "",
        "Final energy = 1.5 eV",
        "  Final energy =      -123.456000 eV\n",
        "Final energy = 5 eV",
        "Final energy = 55 eV",
        "Final energy = 12. eV",
        "Final energy = .5 eV",
        "Final energy = -12.5 eV",
        "Final energy =-12.5 eV",
        "Final energy = 12.3.4 eV",
        "Final energy = 12.5 e",
        "Final energy = 12.5eV",
        "Final energy =\n\t 42.0 \t\n eV tail",
        "Final energy = Final energy = 42.0 eV",
        "a Final energy = 1.5 eV b Final energy = -2.25 eV c",
        "Final energy = 7.25 eV Final energy = 3.5eV Final energy = 2.5\teV",
        "Final energy = --1.5 eV",
        "Final energy = -1.5- eV",
        "Final energy = 000.000 eV",
        "Final energy = 1.5 eVFinal energy = 2.5 eV",
        "Final energy  = 1.5 eV",
        "final energy = 1.5 eV",
        "Final energy = 9999999999999999999999999999999.5 eV",
    ];
    for sample in samples {
        assert_eq!(scanner(sample), reference(sample), "on sample {:?}", sample);
    }
}

#[test]
fn scanner_agrees_on_generated_replies() {
    // A crude generator mixing pattern fragments.
    let pieces = ["Final energy =", " ", "\n", "-", "12", ".", "5", "eV", "x"];
    let mut samples = Vec::new();
    for a in 0..pieces.len() {
        for b in 0..pieces.len() {
            for c in 0..pieces.len() {
                samples.push(format!(
                    "Final energy = {}{}{} eV",
                    pieces[a], pieces[b], pieces[c]
                ));
                samples.push(format!("{}{}{}", pieces[a], pieces[b], pieces[c]));
            }
        }
    }
    for sample in &samples {
        assert_eq!(scanner(sample), reference(sample), "on sample {:?}", sample);
    }
}

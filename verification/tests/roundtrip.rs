use leap_lang::parser::parser::Parser;

/// A small generator of numbers: the same ones on every run.
struct Numbers(u64);

impl Numbers {
    fn next(&mut self, below: usize) -> usize {
        self.0 = self
            .0
            .wrapping_mul(6364136223846793005)
            .wrapping_add(1442695040888963407);
        ((self.0 >> 33) as usize) % below
    }
}

const PIECES: [&str; 24] = [
    ".struct a",
    ".enum b",
    ".struct s[t u]",
    ".enum é[t]",
    " x: int",
    " y: list[t]",
    " z: m[a list[str] t]",
    " q: b",
    " t",
    " list[float]",
    " some[t]",
    " none",
    "\n",
    "\n\n",
    "   \n",
    " ",
    "/ c\n",
    " / trailing \n",
    "/--- dashes\n",
    "/-\n",
    "/",
    " @ ",
    " x:\n/ inside\n bool",
    "\t/ tab \u{a0}\n",
];

fn text(numbers: &mut Numbers) -> String {
    let mut s = String::new();
    let n = 1 + numbers.next(12);
    for _ in 0..n {
        s.push_str(PIECES[numbers.next(PIECES.len())]);
    }
    s
}

#[test]
fn test_format_is_a_fixed_point_on_many_texts() {
    let mut numbers = Numbers(7);
    let mut formatted = 0;
    for _ in 0..20000 {
        let s = text(&mut numbers);
        if let Some(once) = leap_lang::formatter::format(&s) {
            formatted += 1;
            let twice = leap_lang::formatter::format(&once);
            assert_eq!(twice.as_deref(), Some(once.as_str()), "for the text {:?}", s);
            // formatting keeps the declarations
            let before = Parser::parse(&s).unwrap();
            let after = Parser::parse(&once).unwrap();
            assert_eq!(before.len(), after.len());
            for (b, a) in before.iter().zip(after.iter()) {
                assert_eq!(b.to_string(), a.to_string());
            }
        }
    }
    assert!(formatted > 1000);
}

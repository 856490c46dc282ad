use vstd::prelude::*;
use vstd::string::StringExecFns;

verus! {

/// How many entries of a read-only memory stand on one line of its source.
pub const ENTRIES_PER_LINE: usize = 8;

/// The digit of a number below ten.
pub open spec fn digit_char(d: nat) -> Seq<char> {
    if d == 0 {
        "0"@
    } else if d == 1 {
        "1"@
    } else if d == 2 {
        "2"@
    } else if d == 3 {
        "3"@
    } else if d == 4 {
        "4"@
    } else if d == 5 {
        "5"@
    } else if d == 6 {
        "6"@
    } else if d == 7 {
        "7"@
    } else if d == 8 {
        "8"@
    } else {
        "9"@
    }
}

/// A number written in decimal digits.
pub open spec fn decimal(n: nat) -> Seq<char>
    decreases n,
{
    if n < 10 {
        digit_char(n)
    } else {
        decimal(n / 10) + digit_char(n % 10)
    }
}

/// The source of the first `k` entries of a read-only memory: for each
/// address, from `offset` on, an arm that gives the byte stored there.
pub open spec fn rom_entries(data: Seq<u8>, offset: nat, k: int) -> Seq<char>
    decreases k,
{
    if k <= 0 {
        seq![]
    } else {
        rom_entries(data, offset, k - 1) + "\t == "@ + decimal((k - 1 + offset) as nat) + " => "@
            + decimal(data[k - 1] as nat) + ","@ + if (k - 1) % 8 == 7 {
            "\n"@
        } else {
            ""@
        }
    }
}

/// The source of a module that is a read-only memory of the given bytes.
pub open spec fn rom_text(data: Seq<u8>, offset: nat) -> Seq<char> {
    "mod main(addr: $A) -> $X { output(match(addr) {\n"@ + rom_entries(
        data,
        offset,
        data.len() as int,
    ) + "})}\n"@
}

fn digit_str(d: u128) -> (r: &'static str)
    requires
        d < 10,
    ensures
        r@ == digit_char(d as nat),
{
    if d == 0 {
        "0"
    } else if d == 1 {
        "1"
    } else if d == 2 {
        "2"
    } else if d == 3 {
        "3"
    } else if d == 4 {
        "4"
    } else if d == 5 {
        "5"
    } else if d == 6 {
        "6"
    } else if d == 7 {
        "7"
    } else if d == 8 {
        "8"
    } else {
        "9"
    }
}

/// Appends a number in decimal digits.
pub fn push_decimal(out: &mut String, n: u128)
    ensures
        final(out)@ == old(out)@ + decimal(n as nat),
    decreases n,
{
    if n >= 10 {
        push_decimal(out, n / 10);
    }
    out.append(digit_str(n % 10));
    proof {
        if n >= 10 {
            assert(old(out)@ + decimal((n / 10) as nat) + digit_char((n % 10) as nat) =~= old(out)@
                + decimal(n as nat));
        }
    }
}

/// The source of a module `main` that gives, for each address from `offset`
/// on, the byte of `data` stored there, and nothing for any other address.
pub fn make_rom(data: &Vec<u8>, offset: u32) -> (r: String)
    ensures
        r@ == rom_text(data@, offset as nat),
{
    let mut result = String::from_str("mod main(addr: $A) -> $X { output(match(addr) {\n");
    let ghost head = result@;
    let mut index: usize = 0;
    while index < data.len()
        invariant
            index <= data@.len(),
            result@ == head + rom_entries(data@, offset as nat, index as int),
        decreases data@.len() - index,
    {
        let ghost before = result@;
        result.append("\t == ");
        push_decimal(&mut result, index as u128 + offset as u128);
        result.append(" => ");
        push_decimal(&mut result, data[index] as u128);
        result.append(",");
        if index % ENTRIES_PER_LINE == ENTRIES_PER_LINE - 1 {
            result.append("\n");
        } else {
            proof {
                reveal_strlit("");
                assert(result@ + ""@ =~= result@);
            }
        }
        proof {
            let entry = "\t == "@ + decimal((index + offset) as nat) + " => "@ + decimal(
                data@[index as int] as nat,
            ) + ","@ + if index % 8 == 7 {
                "\n"@
            } else {
                ""@
            };
            assert(result@ =~= before + entry);
            assert(head + rom_entries(data@, offset as nat, index as int) + entry =~= head
                + rom_entries(data@, offset as nat, index + 1));
        }
        index = index + 1;
    }
    result.append("})}\n");
    result
}

} // verus!

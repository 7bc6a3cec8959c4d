use vstd::prelude::*;
use vstd::string::StringExecFns;

verus! {

/// The decimal digit character of `d`.
pub open spec fn digit_char(d: nat) -> char {
    if d == 0 { '0' } else if d == 1 { '1' } else if d == 2 { '2' } else if d == 3 { '3' } else if d == 4 { '4' }
    else if d == 5 { '5' } else if d == 6 { '6' } else if d == 7 { '7' } else if d == 8 { '8' } else { '9' }
}

/// The decimal representation of `n`, without leading zeros.
pub open spec fn decimal(n: nat) -> Seq<char>
    decreases n,
{
    if n < 10 {
        seq![digit_char(n)]
    } else {
        decimal(n / 10).push(digit_char(n % 10))
    }
}

/// The colon-prefixed decimal identifiers of `ids`, in order.
pub open spec fn colon_list(ids: Seq<u32>) -> Seq<char>
    decreases ids.len(),
{
    if ids.len() == 0 {
        Seq::empty()
    } else {
        colon_list(ids.drop_last()) + seq![':'] + decimal(ids.last() as nat)
    }
}

pub open spec fn market_browser_base() -> Seq<char> {
    "https://evemarketbrowser.com/region/0/type"@
}

pub open spec fn gatecamp_base() -> Seq<char> {
    "https://eve-gatecheck.space/eve/#"@
}

pub open spec fn esi_scrape_url() -> Seq<char> {
    "https://data.everef.net/esi-scrape/eve-ref-esi-scrape-latest.tar.xz"@
}

pub open spec fn market_data_url() -> Seq<char> {
    "https://data.everef.net/market-orders/market-orders-latest.v3.csv.bz2"@
}

/// The route-check link of a path: the first identifier, the intermediate
/// ones each after a colon, the last after a comma, then a colon and the flag.
pub open spec fn gatecamp_link(path: Seq<u32>, flag: Seq<char>) -> Seq<char> {
    if path.len() < 2 {
        Seq::empty()
    } else {
        gatecamp_base() + decimal(path[0] as nat) + colon_list(path.subrange(1, path.len() - 1)) + seq![',']
            + decimal(path.last() as nat) + seq![':'] + flag
    }
}

fn digit_str(d: u128) -> (r: &'static str)
    requires
        d < 10,
    ensures
        r@ == seq![digit_char(d as nat)],
{
    if d == 0 {
        proof { reveal_strlit("0"); }
        "0"
    } else if d == 1 {
        proof { reveal_strlit("1"); }
        "1"
    } else if d == 2 {
        proof { reveal_strlit("2"); }
        "2"
    } else if d == 3 {
        proof { reveal_strlit("3"); }
        "3"
    } else if d == 4 {
        proof { reveal_strlit("4"); }
        "4"
    } else if d == 5 {
        proof { reveal_strlit("5"); }
        "5"
    } else if d == 6 {
        proof { reveal_strlit("6"); }
        "6"
    } else if d == 7 {
        proof { reveal_strlit("7"); }
        "7"
    } else if d == 8 {
        proof { reveal_strlit("8"); }
        "8"
    } else {
        proof { reveal_strlit("9"); }
        "9"
    }
}

/// Appends the decimal representation of `n`.
pub fn push_decimal(s: &mut String, n: u128)
    ensures
        final(s)@ == old(s)@ + decimal(n as nat),
    decreases n,
{
    if n >= 10 {
        push_decimal(s, n / 10);
    }
    s.append(digit_str(n % 10));
    assert(final(s)@ =~= old(s)@ + decimal(n as nat)) by {
        if n >= 10 {
            assert(decimal(n as nat) == decimal((n / 10) as nat).push(digit_char((n % 10) as nat)));
        }
    }
}

pub fn get_esi_scrape_url() -> (r: String)
    ensures
        r@ == esi_scrape_url(),
{
    String::from_str("https://data.everef.net/esi-scrape/eve-ref-esi-scrape-latest.tar.xz")
}

pub fn get_market_data_url() -> (r: String)
    ensures
        r@ == market_data_url(),
{
    String::from_str("https://data.everef.net/market-orders/market-orders-latest.v3.csv.bz2")
}

/// The market browser link of a commodity: the base, a slash, its identifier.
pub fn get_market_browser_url(type_id: u32) -> (r: String)
    ensures
        r@ == market_browser_base() + seq!['/'] + decimal(type_id as nat),
{
    let mut url = String::from_str("https://evemarketbrowser.com/region/0/type");
    proof { reveal_strlit("/"); }
    url.append("/");
    push_decimal(&mut url, type_id as u128);
    url
}

/// The route-check link of a path of location identifiers; empty when the
/// path has fewer than two locations.
pub fn get_gatecamp_url(path: Vec<u32>, flag: &str) -> (r: String)
    ensures
        r@ == gatecamp_link(path@, flag@),
{
    if path.len() < 2 {
        return String::new();
    }
    let mut url = String::from_str("https://eve-gatecheck.space/eve/#");
    push_decimal(&mut url, path[0] as u128);
    let ghost head = url@;
    let last = path.len() - 1;
    let mut i: usize = 1;
    proof { reveal_strlit(":"); reveal_strlit(","); }
    assert(path@.subrange(1, 1) =~= Seq::<u32>::empty());
    while i < last
        invariant
            1 <= i <= last,
            last == path@.len() - 1,
            url@ == head + colon_list(path@.subrange(1, i as int)),
        decreases last - i,
    {
        proof { reveal_strlit(":"); }
        let ghost before = url@;
        url.append(":");
        push_decimal(&mut url, path[i] as u128);
        assert(path@.subrange(1, i + 1).drop_last() =~= path@.subrange(1, i as int));
        assert(path@.subrange(1, i + 1).last() == path@[i as int]);
        assert(url@ =~= before + seq![':'] + decimal(path@[i as int] as nat));
        assert(url@ =~= head + colon_list(path@.subrange(1, i + 1)));
        i = i + 1;
    }
    url.append(",");
    push_decimal(&mut url, path[last] as u128);
    url.append(":");
    url.append(flag);
    assert(url@ =~= gatecamp_link(path@, flag@));
    url
}

/// The fixed-point text of `v` hundredths: its integer part, a point, and
/// two digits.
pub open spec fn fixed2(v: nat) -> Seq<char> {
    decimal(v / 100) + seq!['.', digit_char((v % 100) / 10), digit_char(v % 10)]
}

/// The fixed-point text of a signed number of hundredths.
pub open spec fn signed_fixed2(v: int) -> Seq<char> {
    if v < 0 {
        seq!['-'] + fixed2((-v) as nat)
    } else {
        fixed2(v as nat)
    }
}

/// Appends `v` hundredths with two decimals.
pub fn push_fixed2(s: &mut String, v: u128)
    ensures
        final(s)@ == old(s)@ + fixed2(v as nat),
{
    push_decimal(s, v / 100);
    proof { reveal_strlit("."); }
    s.append(".");
    s.append(digit_str((v % 100) / 10));
    s.append(digit_str(v % 10));
    assert(final(s)@ =~= old(s)@ + fixed2(v as nat));
}

/// Appends a signed number of hundredths with two decimals.
pub fn push_signed_fixed2(s: &mut String, v: i128)
    ensures
        final(s)@ == old(s)@ + signed_fixed2(v as int),
{
    if v < 0 {
        proof { reveal_strlit("-"); }
        s.append("-");
        let m: u128 = if v == i128::MIN {
            0x8000_0000_0000_0000_0000_0000_0000_0000u128
        } else {
            (-v) as u128
        };
        push_fixed2(s, m);
        assert(final(s)@ =~= old(s)@ + signed_fixed2(v as int));
    } else {
        push_fixed2(s, v as u128);
    }
}

} // verus!

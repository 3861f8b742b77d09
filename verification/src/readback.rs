use crate::chip::{net_lines, route_count, route_line, route_lines, Chip};
use crate::components::{encode_name, lemma_decode_encode, FactoryID, Point, PosNode, Route, Towards};
use crate::error::Error;
use crate::loader::{
    description_ok, repeat, route_step, spec_route, spec_routes, DescriptionView, NetInputView,
};
use crate::reader::{is_space, is_word, lemma_tokens_word, spec_name, spec_usize, tokens, Tokens};
use crate::replay::{lemma_built_again, lemma_span_routes, same_planar};
use crate::text::{
    all_ascii, as_text, decimal, is_digit, lemma_decimal_value, lemma_text_bytes, strip_plus,
};
use crate::tree::{
    built_from, edge_route, lemma_edge_route_atomic, lemma_walk_routes, spans_upto, tree_routes,
    tree_wf, walk_from, Net,
};
use vstd::prelude::*;
use vstd::string::*;

verus! {

/// The bytes that a text of ASCII characters is made of.
pub open spec fn text_bytes(chars: Seq<char>) -> Seq<u8> {
    Seq::new(chars.len(), |i: int| chars[i] as u8)
}

/// The bytes of two texts in a row are the bytes of the one and then of the other.
pub proof fn lemma_text_bytes_concat(a: Seq<char>, b: Seq<char>)
    ensures
        text_bytes(a + b) == text_bytes(a) + text_bytes(b),
{
    assert(text_bytes(a + b) =~= text_bytes(a) + text_bytes(b));
}

/// The bytes of the text of ASCII bytes are those bytes.
pub proof fn lemma_text_bytes_of(bytes: Seq<u8>)
    requires
        all_ascii(bytes),
    ensures
        text_bytes(as_text(bytes)) == bytes,
{
    assert forall|i: int| 0 <= i < bytes.len() implies text_bytes(as_text(bytes))[i] == bytes[i] by {
        assert(bytes[i] < 128);
    }
    assert(text_bytes(as_text(bytes)) =~= bytes);
}

/// The decimal digits of a number are a word, and read as that number.
pub proof fn lemma_number_token(n: usize, rest: Tokens)
    ensures
        is_word(decimal(n as nat)),
        all_ascii(decimal(n as nat)),
        spec_usize(seq![decimal(n as nat)] + rest) == Ok::<(usize, Tokens), Error>((n, rest)),
{
    let d = decimal(n as nat);
    lemma_decimal_value(n as nat);
    assert forall|i: int| 0 <= i < d.len() implies !is_space(#[trigger] d[i]) by {
        assert(is_digit(d[i]));
    }
    assert(is_digit(d[0]));
    assert(strip_plus(d) == d);
    let toks = seq![d] + rest;
    assert(toks[0] == d);
    assert(toks.drop_first() =~= rest);
}

/// The name of a net is a word, and reads as the id of the net.
pub proof fn lemma_net_name_token(id: usize, rest: Tokens)
    requires
        id < usize::MAX,
    ensures
        is_word(encode_name(Net::spec_prefix(), id)),
        all_ascii(encode_name(Net::spec_prefix(), id)),
        spec_name(seq![encode_name(Net::spec_prefix(), id)] + rest, Net::spec_prefix()) == Ok::<
            (usize, Tokens),
            Error,
        >((id, rest)),
{
    let prefix = Net::spec_prefix();
    let d = decimal((id + 1) as nat);
    let name = encode_name(prefix, id);
    lemma_decimal_value((id + 1) as nat);
    lemma_decode_encode(prefix, id);
    assert forall|i: int| 0 <= i < name.len() implies !is_space(#[trigger] name[i]) && name[i]
        < 128 by {
        if i >= 1 {
            assert(name[i] == d[i - 1]);
            assert(is_digit(d[i - 1]));
        }
    }
    let toks = seq![name] + rest;
    assert(toks[0] == name);
    assert(toks.drop_first() =~= rest);
}

/// The bytes of one line of the route listing.
pub open spec fn line_bytes(r: Route<usize>, net: usize) -> Seq<u8> {
    decimal(r.0.0 as nat) + seq![32u8] + decimal(r.0.1 as nat) + seq![32u8] + decimal(
        r.0.2 as nat,
    ) + seq![32u8] + decimal(r.1.0 as nat) + seq![32u8] + decimal(r.1.1 as nat) + seq![32u8]
        + decimal(r.1.2 as nat) + seq![32u8] + encode_name(Net::spec_prefix(), net) + seq![10u8]
}

/// A line of the route listing is made of the bytes of its numbers and its name, a space
/// after each but the last, and a line feed at the end.
pub proof fn lemma_line_bytes(r: Route<usize>, net: usize)
    requires
        net < usize::MAX,
    ensures
        text_bytes(route_line(r, net)) == line_bytes(r, net),
{
    reveal_strlit(" ");
    reveal_strlit("\n");
    let sp = " "@;
    let nl = "\n"@;
    assert(text_bytes(sp) =~= seq![32u8]);
    assert(text_bytes(nl) =~= seq![10u8]);
    let a = decimal(r.0.0 as nat);
    let b = decimal(r.0.1 as nat);
    let c = decimal(r.0.2 as nat);
    let d = decimal(r.1.0 as nat);
    let e = decimal(r.1.1 as nat);
    let f = decimal(r.1.2 as nat);
    let name = encode_name(Net::spec_prefix(), net);
    lemma_decimal_value(r.0.0 as nat);
    lemma_decimal_value(r.0.1 as nat);
    lemma_decimal_value(r.0.2 as nat);
    lemma_decimal_value(r.1.0 as nat);
    lemma_decimal_value(r.1.1 as nat);
    lemma_decimal_value(r.1.2 as nat);
    lemma_net_name_token(net, Seq::empty());
    lemma_text_bytes_of(a);
    lemma_text_bytes_of(b);
    lemma_text_bytes_of(c);
    lemma_text_bytes_of(d);
    lemma_text_bytes_of(e);
    lemma_text_bytes_of(f);
    lemma_text_bytes_of(name);
    let source = as_text(a) + sp + as_text(b) + sp + as_text(c);
    let target = as_text(d) + sp + as_text(e) + sp + as_text(f);
    assert(r.0.text() == source);
    assert(r.1.text() == target);
    assert(text_bytes(source) =~= a + seq![32u8] + b + seq![32u8] + c) by {
        lemma_text_bytes_concat(as_text(a), sp);
        lemma_text_bytes_concat(as_text(a) + sp, as_text(b));
        lemma_text_bytes_concat(as_text(a) + sp + as_text(b), sp);
        lemma_text_bytes_concat(as_text(a) + sp + as_text(b) + sp, as_text(c));
    }
    assert(text_bytes(target) =~= d + seq![32u8] + e + seq![32u8] + f) by {
        lemma_text_bytes_concat(as_text(d), sp);
        lemma_text_bytes_concat(as_text(d) + sp, as_text(e));
        lemma_text_bytes_concat(as_text(d) + sp + as_text(e), sp);
        lemma_text_bytes_concat(as_text(d) + sp + as_text(e) + sp, as_text(f));
    }
    let line = route_line(r, net);
    assert(line == source + sp + target + sp + as_text(name) + nl);
    assert(text_bytes(line) =~= text_bytes(source) + seq![32u8] + text_bytes(target) + seq![32u8]
        + name + seq![10u8]) by {
        lemma_text_bytes_concat(source, sp);
        lemma_text_bytes_concat(source + sp, target);
        lemma_text_bytes_concat(source + sp + target, sp);
        lemma_text_bytes_concat(source + sp + target + sp, as_text(name));
        lemma_text_bytes_concat(source + sp + target + sp + as_text(name), nl);
    }
    assert(text_bytes(line) =~= line_bytes(r, net));
}

/// `nets` with the route `r` added to net `net`.
pub open spec fn with_route(nets: Seq<NetInputView>, net: int, r: Route<usize>) -> Seq<
    NetInputView,
> {
    nets.update(net, NetInputView { segments: nets[net].segments.push(r), ..nets[net] })
}

/// Bytes grouped from the left are the same bytes grouped from the right.
pub proof fn lemma_regroup(l: Seq<u8>, w: Seq<u8>, sep: u8, t: Seq<u8>)
    ensures
        (l + w + seq![sep]) + t == l + (w + seq![sep] + t),
{
    assert((l + w + seq![sep]) + t =~= l + (w + seq![sep] + t));
}

/// The tokens of a word and one byte of whitespace behind any bytes `l`, before more input.
pub proof fn lemma_tokens_next(l: Seq<u8>, w: Seq<u8>, sep: u8, t: Seq<u8>)
    requires
        is_word(w),
        is_space(sep),
    ensures
        (l + w + seq![sep]) + t == l + (w + seq![sep] + t),
        tokens(w + seq![sep] + t) == seq![w] + tokens(t),
{
    lemma_regroup(l, w, sep, t);
    lemma_tokens_word(w, sep, t);
}

/// The tokens of a line of the route listing, followed by more input, are its six numbers and
/// its name, followed by the tokens of that input.
pub proof fn lemma_line_tokens(r: Route<usize>, net: usize, rest: Seq<u8>)
    requires
        net < usize::MAX,
    ensures
        tokens(line_bytes(r, net) + rest) == seq![decimal(r.0.0 as nat)] + (seq![
            decimal(r.0.1 as nat),
        ] + (seq![decimal(r.0.2 as nat)] + (seq![decimal(r.1.0 as nat)] + (seq![
            decimal(r.1.1 as nat),
        ] + (seq![decimal(r.1.2 as nat)] + (seq![encode_name(Net::spec_prefix(), net)] + tokens(
            rest,
        ))))))),
{
    let a = decimal(r.0.0 as nat);
    let b = decimal(r.0.1 as nat);
    let c = decimal(r.0.2 as nat);
    let d = decimal(r.1.0 as nat);
    let e = decimal(r.1.1 as nat);
    let f = decimal(r.1.2 as nat);
    let name = encode_name(Net::spec_prefix(), net);
    let none = Seq::<Seq<u8>>::empty();
    lemma_number_token(r.0.0, none);
    lemma_number_token(r.0.1, none);
    lemma_number_token(r.0.2, none);
    lemma_number_token(r.1.0, none);
    lemma_number_token(r.1.1, none);
    lemma_number_token(r.1.2, none);
    lemma_net_name_token(net, none);
    let sp = seq![32u8];
    let t6 = name + seq![10u8] + rest;
    let t5 = f + sp + t6;
    let t4 = e + sp + t5;
    let t3 = d + sp + t4;
    let t2 = c + sp + t3;
    let t1 = b + sp + t2;
    let t0 = a + sp + t1;
    let l1 = a + sp;
    let l2 = l1 + b + sp;
    let l3 = l2 + c + sp;
    let l4 = l3 + d + sp;
    let l5 = l4 + e + sp;
    let l6 = l5 + f + sp;
    lemma_tokens_next(l6, name, 10u8, rest);
    lemma_tokens_next(l5, f, 32u8, t6);
    lemma_tokens_next(l4, e, 32u8, t5);
    lemma_tokens_next(l3, d, 32u8, t4);
    lemma_tokens_next(l2, c, 32u8, t3);
    lemma_tokens_next(l1, b, 32u8, t2);
    lemma_tokens_word(a, 32u8, t1);
    assert(line_bytes(r, net) + rest == l6 + t6);
    assert(l6 + t6 == l5 + t5);
    assert(l5 + t5 == l4 + t4);
    assert(l4 + t4 == l3 + t3);
    assert(l3 + t3 == l2 + t2);
    assert(l2 + t2 == l1 + t1);
    assert(l1 + t1 == t0);
}

/// Reading a line of the route listing adds its route to its net.
pub proof fn lemma_read_line(nets: Seq<NetInputView>, r: Route<usize>, net: usize, rest: Seq<u8>)
    requires
        net < usize::MAX,
        net < nets.len(),
        r.axis_aligned(),
    ensures
        spec_route(nets, tokens(line_bytes(r, net) + rest)) == Ok::<
            (Seq<NetInputView>, Tokens),
            Error,
        >((with_route(nets, net as int, r), tokens(rest))),
{
    let a = decimal(r.0.0 as nat);
    let b = decimal(r.0.1 as nat);
    let c = decimal(r.0.2 as nat);
    let d = decimal(r.1.0 as nat);
    let e = decimal(r.1.1 as nat);
    let f = decimal(r.1.2 as nat);
    let name = encode_name(Net::spec_prefix(), net);
    let end = tokens(rest);
    lemma_line_tokens(r, net, rest);
    let t7 = end;
    let t6 = seq![name] + t7;
    let t5 = seq![f] + t6;
    let t4 = seq![e] + t5;
    let t3 = seq![d] + t4;
    let t2 = seq![c] + t3;
    let t1 = seq![b] + t2;
    let t0 = seq![a] + t1;
    assert(tokens(line_bytes(r, net) + rest) == t0);
    lemma_number_token(r.0.0, t1);
    lemma_number_token(r.0.1, t2);
    lemma_number_token(r.0.2, t3);
    lemma_number_token(r.1.0, t4);
    lemma_number_token(r.1.1, t5);
    lemma_number_token(r.1.2, t6);
    lemma_net_name_token(net, t7);
    assert(Route(Point(r.0.0, r.0.1, r.0.2), Point(r.1.0, r.1.1, r.1.2)) == r);
}

/// The bytes of the first `k` lines of the route listing of net `net`.
pub open spec fn lines_bytes(routes: Seq<Route<usize>>, net: usize, k: int) -> Seq<u8>
    decreases k,
{
    if k <= 0 {
        Seq::empty()
    } else {
        lines_bytes(routes, net, k - 1) + line_bytes(routes[k - 1], net)
    }
}

/// The route listing of a net is made of the bytes of its lines.
pub proof fn lemma_lines_bytes(routes: Seq<Route<usize>>, net: usize, k: int)
    requires
        net < usize::MAX,
    ensures
        text_bytes(route_lines(routes, net, k)) == lines_bytes(routes, net, k),
    decreases k,
{
    if k <= 0 {
        assert(text_bytes(route_lines(routes, net, k)) =~= lines_bytes(routes, net, k));
    } else {
        lemma_lines_bytes(routes, net, k - 1);
        lemma_line_bytes(routes[k - 1], net);
        lemma_text_bytes_concat(route_lines(routes, net, k - 1), route_line(routes[k - 1], net));
    }
}

/// `nets` with the first `k` of `routes` added to net `net`, in order.
pub open spec fn with_routes(
    nets: Seq<NetInputView>,
    net: int,
    routes: Seq<Route<usize>>,
    k: int,
) -> Seq<NetInputView>
    decreases k,
{
    if k <= 0 {
        nets
    } else {
        with_route(with_routes(nets, net, routes, k - 1), net, routes[k - 1])
    }
}

/// Adding routes to a net changes the segments of that net alone: they grow by those routes.
pub proof fn lemma_with_routes(nets: Seq<NetInputView>, net: int, routes: Seq<Route<usize>>, k: int)
    requires
        0 <= net < nets.len(),
        0 <= k <= routes.len(),
    ensures
        with_routes(nets, net, routes, k).len() == nets.len(),
        forall|i: int|
            0 <= i < nets.len() && i != net ==> #[trigger] with_routes(nets, net, routes, k)[i]
                == nets[i],
        with_routes(nets, net, routes, k)[net] == (NetInputView {
            segments: nets[net].segments + routes.subrange(0, k),
            ..nets[net]
        }),
    decreases k,
{
    if k <= 0 {
        assert(nets[net].segments + routes.subrange(0, k) =~= nets[net].segments);
    } else {
        lemma_with_routes(nets, net, routes, k - 1);
        let before = with_routes(nets, net, routes, k - 1);
        assert(before[net].segments.push(routes[k - 1]) =~= nets[net].segments + routes.subrange(
            0,
            k,
        ));
    }
}

/// Bytes put together from the left are the same bytes put together from the right.
pub proof fn lemma_append(a: Seq<u8>, b: Seq<u8>, c: Seq<u8>)
    ensures
        (a + b) + c == a + (b + c),
{
    assert((a + b) + c =~= a + (b + c));
}

/// Reading the first `k` lines of the route listing of a net adds their routes to the net.
pub proof fn lemma_read_lines(
    nets: Seq<NetInputView>,
    routes: Seq<Route<usize>>,
    net: usize,
    k: int,
    rest: Seq<u8>,
)
    requires
        net < usize::MAX,
        net < nets.len(),
        0 <= k <= routes.len(),
        forall|i: int| 0 <= i < k ==> (#[trigger] routes[i]).axis_aligned(),
    ensures
        repeat(route_step(), nets, tokens(lines_bytes(routes, net, k) + rest), k) == Ok::<
            (Seq<NetInputView>, Tokens),
            Error,
        >((with_routes(nets, net as int, routes, k), tokens(rest))),
    decreases k,
{
    if k <= 0 {
        assert(lines_bytes(routes, net, k) + rest =~= rest);
    } else {
        let line = line_bytes(routes[k - 1], net);
        lemma_append(lines_bytes(routes, net, k - 1), line, rest);
        lemma_read_lines(nets, routes, net, k - 1, line + rest);
        lemma_with_routes(nets, net as int, routes, k - 1);
        lemma_read_line(with_routes(nets, net as int, routes, k - 1), routes[k - 1], net, rest);
    }
}

/// Reading `a + b` records of the route section is reading `a` and then `b` of them.
pub proof fn lemma_repeat_routes(init: Seq<NetInputView>, toks: Tokens, a: int, b: int)
    requires
        0 <= a,
        0 <= b,
    ensures
        repeat(route_step(), init, toks, a + b) == match repeat(route_step(), init, toks, a) {
            Ok((nets, rest)) => repeat(route_step(), nets, rest, b),
            Err(e) => Err(e),
        },
    decreases b,
{
    if b > 0 {
        lemma_repeat_routes(init, toks, a, b - 1);
        assert(a + b - 1 == a + (b - 1));
    }
}

/// The bytes of the route listings of the first `k` nets.
pub open spec fn listing_bytes(nets: Seq<Net>, k: int) -> Seq<u8>
    decreases k,
{
    if k <= 0 {
        Seq::empty()
    } else {
        listing_bytes(nets, k - 1) + lines_bytes(
            tree_routes(nets[k - 1].tree.nodes@),
            nets[k - 1].id,
            tree_routes(nets[k - 1].tree.nodes@).len() as int,
        )
    }
}

/// The route listings of the nets are made of the bytes of their lines.
pub proof fn lemma_listing_bytes(nets: Seq<Net>, k: int)
    requires
        0 <= k <= nets.len(),
        forall|i: int| 0 <= i < nets.len() ==> (#[trigger] nets[i]).id < usize::MAX,
    ensures
        text_bytes(net_lines(nets, k)) == listing_bytes(nets, k),
    decreases k,
{
    if k <= 0 {
        assert(text_bytes(net_lines(nets, k)) =~= listing_bytes(nets, k));
    } else {
        lemma_listing_bytes(nets, k - 1);
        let routes = tree_routes(nets[k - 1].tree.nodes@);
        lemma_lines_bytes(routes, nets[k - 1].id, routes.len() as int);
        lemma_text_bytes_concat(net_lines(nets, k - 1), nets[k - 1].text());
    }
}

/// `init` with the routes that the first `k` nets are written as added, each to the net of
/// its name.
pub open spec fn refilled(init: Seq<NetInputView>, nets: Seq<Net>, k: int) -> Seq<NetInputView>
    decreases k,
{
    if k <= 0 {
        init
    } else {
        with_routes(
            refilled(init, nets, k - 1),
            nets[k - 1].id as int,
            tree_routes(nets[k - 1].tree.nodes@),
            tree_routes(nets[k - 1].tree.nodes@).len() as int,
        )
    }
}

/// What refilling changes: net `i` of the first `k` gains the routes that it is written as,
/// and nothing else changes.
pub proof fn lemma_refilled(init: Seq<NetInputView>, nets: Seq<Net>, k: int)
    requires
        0 <= k <= nets.len(),
        init.len() == nets.len(),
        forall|i: int| 0 <= i < nets.len() ==> (#[trigger] nets[i]).id == i,
    ensures
        refilled(init, nets, k).len() == init.len(),
        forall|i: int|
            0 <= i < k ==> #[trigger] refilled(init, nets, k)[i] == (NetInputView {
                segments: init[i].segments + tree_routes(nets[i].tree.nodes@),
                ..init[i]
            }),
        forall|i: int| k <= i < init.len() ==> #[trigger] refilled(init, nets, k)[i] == init[i],
    decreases k,
{
    if k > 0 {
        lemma_refilled(init, nets, k - 1);
        let before = refilled(init, nets, k - 1);
        let routes = tree_routes(nets[k - 1].tree.nodes@);
        assert(nets[k - 1].id == k - 1);
        lemma_with_routes(before, k - 1, routes, routes.len() as int);
        assert(routes.subrange(0, routes.len() as int) =~= routes);
    }
}

/// Every route that a well-formed tree is written as runs along one axis.
pub proof fn lemma_written_aligned(nodes: Seq<PosNode>, k: int)
    requires
        tree_wf(nodes),
        0 <= k < tree_routes(nodes).len(),
    ensures
        tree_routes(nodes)[k].axis_aligned(),
{
    let n = nodes.len() as int;
    let spans = spans_upto(nodes, n);
    let walk = walk_from(nodes, 0, None, nodes.len(), 0);
    if k < spans.len() {
        assert(tree_routes(nodes)[k] == spans[k]);
        lemma_span_routes(nodes, n, k);
    } else {
        let j = k - spans.len();
        assert(tree_routes(nodes)[k] == walk[j]);
        lemma_walk_routes(nodes, 0, None, nodes.len(), 0, j);
        let (i, t) = choose|i: int, t: Towards|
            {
                &&& 0 <= i < nodes.len()
                &&& t.planar()
                &&& (#[trigger] nodes[i].slot(t)) is Some
                &&& walk[j] == edge_route(nodes, i, nodes[i].slot(t)->0)
            };
        lemma_edge_route_atomic(nodes, i, t);
    }
}

/// Reading the route listings of the first `k` nets adds to every one of them the routes
/// that it is written as.
pub proof fn lemma_read_listing(init: Seq<NetInputView>, nets: Seq<Net>, k: int, rest: Seq<u8>)
    requires
        0 <= k <= nets.len(),
        init.len() == nets.len(),
        nets.len() <= usize::MAX,
        forall|i: int| 0 <= i < nets.len() ==> (#[trigger] nets[i]).id == i,
        forall|i: int| 0 <= i < nets.len() ==> tree_wf((#[trigger] nets[i]).tree.nodes@),
    ensures
        repeat(
            route_step(),
            init,
            tokens(listing_bytes(nets, k) + rest),
            route_count(nets, k) as int,
        ) == Ok::<(Seq<NetInputView>, Tokens), Error>((refilled(init, nets, k), tokens(rest))),
    decreases k,
{
    if k <= 0 {
        assert(listing_bytes(nets, k) + rest =~= rest);
    } else {
        let net = nets[k - 1];
        let routes = tree_routes(net.tree.nodes@);
        let lines = lines_bytes(routes, net.id, routes.len() as int);
        assert(net.id == k - 1);
        lemma_append(listing_bytes(nets, k - 1), lines, rest);
        lemma_read_listing(init, nets, k - 1, lines + rest);
        lemma_refilled(init, nets, k - 1);
        assert forall|i: int| 0 <= i < routes.len() implies (#[trigger] routes[i]).axis_aligned() by {
            lemma_written_aligned(net.tree.nodes@, i);
        }
        lemma_read_lines(refilled(init, nets, k - 1), routes, net.id, routes.len() as int, rest);
        lemma_repeat_routes(
            init,
            tokens(listing_bytes(nets, k) + rest),
            route_count(nets, k - 1) as int,
            routes.len() as int,
        );
    }
}

/// The route section of a solution file: the count of the routes, then the route listing of
/// every net.
pub open spec fn route_section(nets: Seq<Net>) -> Seq<char> {
    "NumRoutes "@ + as_text(decimal(route_count(nets, nets.len() as int))) + "\n"@ + net_lines(
        nets,
        nets.len() as int,
    )
}

/// The route section that a chip is written with reads back as the routes that were
/// written: read as the route section of a description whose nets are `init`, it adds to
/// every net the routes that the net of that number is written as, in the order in which they
/// are written, and leaves no token over.
pub proof fn lemma_routes_read_back(init: Seq<NetInputView>, nets: Seq<Net>)
    requires
        init.len() == nets.len(),
        nets.len() <= usize::MAX,
        forall|i: int| 0 <= i < nets.len() ==> (#[trigger] nets[i]).id == i,
        forall|i: int| 0 <= i < nets.len() ==> tree_wf((#[trigger] nets[i]).tree.nodes@),
        route_count(nets, nets.len() as int) <= usize::MAX,
    ensures
        spec_routes(tokens(text_bytes(route_section(nets))), init) == Ok::<
            (Seq<NetInputView>, Tokens),
            Error,
        >((refilled(init, nets, nets.len() as int), Seq::empty())),
        refilled(init, nets, nets.len() as int).len() == nets.len(),
        forall|i: int|
            0 <= i < nets.len() ==> #[trigger] refilled(init, nets, nets.len() as int)[i] == (
            NetInputView {
                segments: init[i].segments + tree_routes(nets[i].tree.nodes@),
                ..init[i]
            }),
{
    let n = nets.len() as int;
    let total = route_count(nets, n) as usize;
    reveal_strlit("NumRoutes ");
    reveal_strlit("NumRoutes");
    reveal_strlit("\n");
    let word = seq![78u8, 117u8, 109u8, 82u8, 111u8, 117u8, 116u8, 101u8, 115u8];
    assert("NumRoutes"@ =~= as_text(word));
    lemma_text_bytes("NumRoutes", word);
    assert(text_bytes("NumRoutes "@) =~= word + seq![32u8]);
    assert(text_bytes("\n"@) =~= seq![10u8]);
    let count = decimal(total as nat);
    let listing = listing_bytes(nets, n);
    lemma_number_token(total, tokens(listing));
    lemma_text_bytes_of(count);
    lemma_listing_bytes(nets, n);
    let head = "NumRoutes "@ + as_text(count) + "\n"@;
    lemma_text_bytes_concat("NumRoutes "@, as_text(count));
    lemma_text_bytes_concat("NumRoutes "@ + as_text(count), "\n"@);
    lemma_text_bytes_concat(head, net_lines(nets, n));
    let bytes = text_bytes(route_section(nets));
    assert(bytes == (word + seq![32u8] + count + seq![10u8]) + listing);
    lemma_regroup(word + seq![32u8], count, 10u8, listing);
    let tail = count + seq![10u8] + listing;
    assert(bytes == word + seq![32u8] + tail);
    assert(is_word(word));
    lemma_tokens_word(word, 32u8, tail);
    lemma_tokens_word(count, 10u8, listing);
    let t2 = tokens(listing);
    let t1 = seq![count] + t2;
    let t0 = seq![word] + t1;
    assert(tokens(bytes) == t0);
    assert(t0[0] == word);
    assert(t0.drop_first() =~= t1);
    assert(listing + Seq::<u8>::empty() =~= listing);
    lemma_read_listing(init, nets, n, Seq::empty());
    assert(tokens(Seq::<u8>::empty()) =~= Seq::<Seq<u8>>::empty());
    lemma_refilled(init, nets, n);
}

/// The nets of a description without their segments.
pub open spec fn bare(nets: Seq<NetInputView>) -> Seq<NetInputView> {
    Seq::new(nets.len(), |i: int| NetInputView { segments: Seq::empty(), ..nets[i] })
}

/// A chip that is written as soon as it is read loses nothing of its routing: the route
/// section that it is written with reads back, net by net, as the routes that were written;
/// and any tree built from the routes of a net, with the pins of that net, has the positions
/// and the planar pointers of the net's tree, which are its atomic segments, and is written as
/// the same routes.
pub proof fn lemma_load_dump(chip: Chip, d: DescriptionView, i: int, again: Seq<PosNode>)
    requires
        chip.holds(d),
        description_ok(d),
        chip.nets@.len() <= usize::MAX,
        route_count(chip.nets@, chip.nets@.len() as int) <= usize::MAX,
        0 <= i < chip.nets@.len(),
        chip.nets@[i].tree.nodes@.len() <= usize::MAX,
        built_from(again, d.nets[i].pins, tree_routes(chip.nets@[i].tree.nodes@)),
    ensures
        spec_routes(tokens(text_bytes(route_section(chip.nets@))), bare(d.nets)) matches Ok(
            (back, rest),
        ) && rest.len() == 0 && back.len() == d.nets.len() && back[i].pins == d.nets[i].pins
            && back[i].segments == tree_routes(chip.nets@[i].tree.nodes@),
        same_planar(again, chip.nets@[i].tree.nodes@),
        tree_routes(again) == tree_routes(chip.nets@[i].tree.nodes@),
{
    let nets = chip.nets@;
    let init = bare(d.nets);
    assert forall|k: int| 0 <= k < nets.len() implies (#[trigger] nets[k]).id == k && tree_wf(
        nets[k].tree.nodes@,
    ) by {
        assert(nets[k].id == d.nets[k].id);
    }
    assert(init.len() == nets.len());
    lemma_routes_read_back(init, nets);
    let back = refilled(init, nets, nets.len() as int);
    assert(init[i].segments + tree_routes(nets[i].tree.nodes@) =~= tree_routes(
        nets[i].tree.nodes@,
    ));
    assert(nets[i].id == d.nets[i].id);
    assert forall|m: int| 0 <= m < d.nets[i].segments.len() implies (
    #[trigger] d.nets[i].segments[m]).axis_aligned() by {}
    lemma_built_again(nets[i].tree.nodes@, again, d.nets[i].pins, d.nets[i].segments);
}

} // verus!

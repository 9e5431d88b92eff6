# mini-download-serve

A small file download server. Every file is sent as an attachment, a directory
as a page of links, and the kernel moves the bytes of a download from the page
cache to the socket with `sendfile(2)`.

`src/` is the logic, verified with Verus: each function states what it returns,
and the properties of the whole are proof functions whose names start with
`law_`.

| module     | what it decides                                                    |
|------------|--------------------------------------------------------------------|
| `web`      | the way from a request to an answer, the headers of a download      |
| `range`    | which bytes a `Range` header asks for                               |
| `paths`    | where a request path leads, and whether that is within the root     |
| `encode`   | percent-encoding of names, decoding of paths                        |
| `listing`  | the order of a directory's entries, the page that lists them        |
| `size`     | sizes for people to read, without floating point                    |
| `clock`    | file times as they are shown                                        |
| `conn`     | when the headers of a response are on the wire, to their end        |
| `sendfile` | which bytes go to the socket next                                   |
| `reply`    | replies as plain values                                             |
| `address`  | where people are told to look for the server                        |
| `text`     | characters, white space, decimal numbers                            |

`app/` is the server around it: arguments, sockets, files, hyper and axum. It
does what the library asks for and tells it what came of that.

A function that calls into another crate is marked `external_body`, or the other
crate's function is given an `assume_specification`; the comment above says what
is taken on trust.

Runs on Linux and macOS.

    mini-download-serve [-p PORT] [-b ADDR] [DIR]

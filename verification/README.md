# async_fcgi

FastCGI for web servers, verified with [Verus](https://github.com/verus-lang/verus).

- `src/` is the library: records and name-value pairs, streams of records, requests that are
  multiplexed on a connection, response heads, and the settings of a connection pool. It does no
  I/O: what is to be written waits in a queue, and what was read is handed in.
- `app/` moves the bytes with tokio and offers the asynchronous interface.
- `tests/` runs the library on byte sequences as PHP and flup exchange them.

What the library promises stands in the contracts of its functions. What relates several functions
stands in proof functions whose names start with `law_`, for example:

- name-value pairs, headers, records and streams are read back as they were written,
- reading does not depend on how the bytes were cut into pieces,
- standard output arrives whole and in order at the request it is for, and nowhere else, the start
  of the body that came with the head of a response included,
- standard error is handed out to be logged, and the end of each request is told once,
- a request that is refused in the middle is aborted at the application.
